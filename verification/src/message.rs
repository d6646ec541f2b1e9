//! A single message under reassembly.

use vstd::prelude::*;
use std::time::Instant;
use crate::time::{Duration, STD_DURATION_MAX_NANOS, clock_now, time_since};
use crate::fragment::{
    Fragment, FragmentStatus, FragmentView, Progress, aggregate_status, all_complete,
    complete_hold_data, complete_indices_bounded, count_with, front_fill, indices_with,
    is_complete_front, joined_data, some_with,
};

verus! {

/// A buffered message undergoing reassembly.
///
/// Times other than `created_at` are measured from `created_at`.
#[derive(Debug)]
pub struct MessageBuffer {
    pub message_id: u64,
    pub total_fragments: usize,
    pub fragments: Vec<Fragment>,
    pub created_at: Instant,
    /// When the last missing piece arrived and every fragment was complete.
    pub completed_at: Option<Duration>,
    pub ttl: Duration,
}

/// What a message buffer holds, apart from the clock reading it was made at.
#[verifier::ext_equal]
pub struct MessageView {
    pub message_id: u64,
    pub total_fragments: usize,
    pub fragments: Seq<FragmentView>,
    pub completed_at: Option<Duration>,
    pub ttl: Duration,
}

impl View for MessageBuffer {
    type V = MessageView;

    open spec fn view(&self) -> MessageView {
        MessageView {
            message_id: self.message_id,
            total_fragments: self.total_fragments,
            fragments: self.fragments@.map_values(|f: Fragment| f@),
            completed_at: self.completed_at,
            ttl: self.ttl,
        }
    }
}

/// The fragment that `index` refers to, before anything arrived for it.
pub open spec fn fresh_fragment(index: int) -> FragmentView {
    FragmentView {
        index: index as usize,
        status: FragmentStatus::Pending,
        data: None,
        last_updated: Duration { nanos: 0 },
    }
}

/// A new message: `total_fragments` pending fragments, numbered in order.
pub open spec fn fresh_message(message_id: u64, total_fragments: usize, ttl: Duration) -> MessageView {
    MessageView {
        message_id,
        total_fragments,
        fragments: Seq::new(total_fragments as nat, |i: int| fresh_fragment(i)),
        completed_at: None,
        ttl,
    }
}

impl MessageView {
    /// One fragment per index, each recording its own position, and a
    /// complete fragment always holds data.
    pub open spec fn wf(self) -> bool {
        &&& self.fragments.len() == self.total_fragments
        &&& forall|i: int| 0 <= i < self.fragments.len() ==> #[trigger] self.fragments[i].index == i
        &&& forall|i: int|
            0 <= i < self.fragments.len() && #[trigger] self.fragments[i].status
                == FragmentStatus::Complete ==> self.fragments[i].data is Some
    }

    /// The message after fragment `index` arrived with `data` at time `now`.
    pub open spec fn after_complete(self, index: int, data: Seq<u8>, now: Duration) -> MessageView {
        let fs = self.fragments.update(
            index,
            FragmentView {
                index: self.fragments[index].index,
                status: FragmentStatus::Complete,
                data: Some(data),
                last_updated: now,
            },
        );
        MessageView {
            message_id: self.message_id,
            total_fragments: self.total_fragments,
            fragments: fs,
            completed_at: if all_complete(fs) {
                Some(now)
            } else {
                self.completed_at
            },
            ttl: self.ttl,
        }
    }

    /// The message after fragment `index` was reported missing at time `now`.
    pub open spec fn after_missing(self, index: int, now: Duration) -> MessageView {
        MessageView {
            fragments: self.fragments.update(
                index,
                FragmentView {
                    status: FragmentStatus::Missing,
                    last_updated: now,
                    ..self.fragments[index]
                },
            ),
            ..self
        }
    }

    /// Past its time to live after `elapsed`, and incomplete.
    pub open spec fn expired_after(self, elapsed: Duration) -> bool {
        !all_complete(self.fragments) && elapsed.nanos > self.ttl.nanos
    }
}

/// A well-formed message meets what `progress` and `reassemble` need.
pub proof fn lemma_wf_meets_needs(m: MessageView)
    requires
        m.wf(),
    ensures
        complete_indices_bounded(m.fragments),
        complete_hold_data(m.fragments),
{
}

impl MessageBuffer {
    pub open spec fn wf(&self) -> bool {
        self@.wf()
    }

    /// A new message of `total_fragments` pending fragments, created now.
    pub fn new(message_id: u64, total_fragments: usize, ttl: Duration) -> (m: Self)
        ensures
            m@ == fresh_message(message_id, total_fragments, ttl),
            m.wf(),
    {
        let now = clock_now();
        let mut fragments: Vec<Fragment> = Vec::new();
        let mut i: usize = 0;
        while i < total_fragments
            invariant
                i <= total_fragments,
                fragments@.len() == i,
                forall|j: int| 0 <= j < i ==> #[trigger] fragments@[j]@ == fresh_fragment(j),
            decreases total_fragments - i,
        {
            fragments.push(
                Fragment {
                    index: i,
                    status: FragmentStatus::Pending,
                    data: None,
                    last_updated: Duration::zero(),
                },
            );
            i += 1;
        }
        let m = MessageBuffer {
            message_id,
            total_fragments,
            fragments,
            created_at: now,
            completed_at: None,
            ttl,
        };
        assert(m@.fragments =~= fresh_message(message_id, total_fragments, ttl).fragments);
        m
    }

    /// Marks fragment `index` complete with `data`, the clock standing at
    /// `now` (measured from the creation of the message). The message becomes
    /// completed at `now` when every fragment is then complete.
    pub fn mark_complete_at(&mut self, index: usize, data: Vec<u8>, now: Duration) -> (r: Result<(), &'static str>)
        requires
            old(self).fragments@.len() == old(self).total_fragments,
        ensures
            old(self).wf() ==> final(self).wf(),
            final(self).fragments@.len() == final(self).total_fragments,
            final(self).created_at == old(self).created_at,
            final(self).message_id == old(self).message_id,
            final(self).total_fragments == old(self).total_fragments,
            final(self).ttl == old(self).ttl,
            index >= old(self).total_fragments ==> {
                &&& r matches Err(e) && e@ == "fragment index out of range"@
                &&& final(self)@ == old(self)@
            },
            index < old(self).total_fragments ==> {
                &&& r is Ok
                &&& final(self)@ == old(self)@.after_complete(index as int, data@, now)
            },
    {
        if index >= self.total_fragments {
            return Err("fragment index out of range");
        }
        let ghost data_view = data@;
        let position = self.fragments[index].index;
        self.fragments.set(
            index,
            Fragment { index: position, status: FragmentStatus::Complete, data: Some(data), last_updated: now },
        );
        let ghost fs = old(self)@.fragments.update(
            index as int,
            FragmentView {
                index: old(self)@.fragments[index as int].index,
                status: FragmentStatus::Complete,
                data: Some(data_view),
                last_updated: now,
            },
        );
        assert(self@.fragments =~= fs);
        if self.is_complete() {
            self.completed_at = Some(now);
        }
        assert(self@ == old(self)@.after_complete(index as int, data_view, now));
        Ok(())
    }

    /// Marks fragment `index` complete with `data`, reading the clock for the
    /// time of the change.
    pub fn mark_complete(&mut self, index: usize, data: Vec<u8>) -> (r: Result<(), &'static str>)
        requires
            old(self).fragments@.len() == old(self).total_fragments,
        ensures
            old(self).wf() ==> final(self).wf(),
            final(self).fragments@.len() == final(self).total_fragments,
            final(self).created_at == old(self).created_at,
            final(self).message_id == old(self).message_id,
            final(self).total_fragments == old(self).total_fragments,
            final(self).ttl == old(self).ttl,
            index >= old(self).total_fragments ==> {
                &&& r matches Err(e) && e@ == "fragment index out of range"@
                &&& final(self)@ == old(self)@
            },
            index < old(self).total_fragments ==> {
                &&& r is Ok
                &&& exists|now: Duration| final(self)@ == old(self)@.after_complete(index as int, data@, now)
            },
    {
        if index >= self.total_fragments {
            return Err("fragment index out of range");
        }
        let now = time_since(&self.created_at);
        let r = self.mark_complete_at(index, data, now);
        assert(self@ == old(self)@.after_complete(index as int, data@, now));
        r
    }

    /// Marks fragment `index` missing, the clock standing at `now` (measured
    /// from the creation of the message). Its data, if any, stays.
    pub fn mark_missing_at(&mut self, index: usize, now: Duration) -> (r: Result<(), &'static str>)
        requires
            old(self).fragments@.len() == old(self).total_fragments,
        ensures
            old(self).wf() ==> final(self).wf(),
            final(self).fragments@.len() == final(self).total_fragments,
            final(self).created_at == old(self).created_at,
            final(self).message_id == old(self).message_id,
            final(self).total_fragments == old(self).total_fragments,
            final(self).ttl == old(self).ttl,
            index >= old(self).total_fragments ==> {
                &&& r matches Err(e) && e@ == "fragment index out of range"@
                &&& final(self)@ == old(self)@
            },
            index < old(self).total_fragments ==> {
                &&& r is Ok
                &&& final(self)@ == old(self)@.after_missing(index as int, now)
            },
    {
        if index >= self.total_fragments {
            return Err("fragment index out of range");
        }
        let mut f = Fragment {
            index: 0,
            status: FragmentStatus::Pending,
            data: None,
            last_updated: Duration::zero(),
        };
        self.fragments.set_and_swap(index, &mut f);
        f.status = FragmentStatus::Missing;
        f.last_updated = now;
        self.fragments.set(index, f);
        assert(self@.fragments =~= old(self)@.after_missing(index as int, now).fragments);
        Ok(())
    }

    /// Marks fragment `index` missing, reading the clock for the time of the
    /// change.
    pub fn mark_missing(&mut self, index: usize) -> (r: Result<(), &'static str>)
        requires
            old(self).fragments@.len() == old(self).total_fragments,
        ensures
            old(self).wf() ==> final(self).wf(),
            final(self).fragments@.len() == final(self).total_fragments,
            final(self).created_at == old(self).created_at,
            final(self).message_id == old(self).message_id,
            final(self).total_fragments == old(self).total_fragments,
            final(self).ttl == old(self).ttl,
            index >= old(self).total_fragments ==> {
                &&& r matches Err(e) && e@ == "fragment index out of range"@
                &&& final(self)@ == old(self)@
            },
            index < old(self).total_fragments ==> {
                &&& r is Ok
                &&& exists|now: Duration| final(self)@ == old(self)@.after_missing(index as int, now)
            },
    {
        if index >= self.total_fragments {
            return Err("fragment index out of range");
        }
        let now = time_since(&self.created_at);
        let r = self.mark_missing_at(index, now);
        assert(self@ == old(self)@.after_missing(index as int, now));
        r
    }

    /// Some fragment has status `s`.
    fn has_status(&self, s: FragmentStatus) -> (r: bool)
        ensures
            r == some_with(self@.fragments, s),
    {
        let mut i: usize = 0;
        while i < self.fragments.len()
            invariant
                i <= self.fragments@.len(),
                forall|j: int| 0 <= j < i ==> #[trigger] self@.fragments[j].status != s,
            decreases self.fragments@.len() - i,
        {
            if self.fragments[i].status == s {
                assert(self@.fragments[i as int].status == s);
                return true;
            }
            i += 1;
        }
        false
    }

    /// The recorded indices of the fragments with status `s`, in order.
    fn indices_of(&self, s: FragmentStatus) -> (out: Vec<usize>)
        ensures
            out@ == indices_with(self@.fragments, s),
    {
        let ghost fs = self@.fragments;
        let mut out: Vec<usize> = Vec::new();
        let mut i: usize = 0;
        while i < self.fragments.len()
            invariant
                fs == self@.fragments,
                i <= fs.len(),
                out@ == indices_with(fs.take(i as int), s),
            decreases fs.len() - i,
        {
            assert(fs.take(i + 1).drop_last() =~= fs.take(i as int));
            if self.fragments[i].status == s {
                out.push(self.fragments[i].index);
            }
            i += 1;
        }
        assert(fs.take(fs.len() as int) =~= fs);
        out
    }

    /// How many fragments have status `s`.
    fn count_of(&self, s: FragmentStatus) -> (n: usize)
        ensures
            n == count_with(self@.fragments, s),
    {
        let ghost fs = self@.fragments;
        let mut n: usize = 0;
        let mut i: usize = 0;
        while i < self.fragments.len()
            invariant
                fs == self@.fragments,
                i <= fs.len(),
                n == count_with(fs.take(i as int), s),
                n <= i,
            decreases fs.len() - i,
        {
            assert(fs.take(i + 1).drop_last() =~= fs.take(i as int));
            if self.fragments[i].status == s {
                n += 1;
            }
            i += 1;
        }
        assert(fs.take(fs.len() as int) =~= fs);
        n
    }

    /// Overall ternary completion status for this message.
    pub fn ternary_status(&self) -> (s: FragmentStatus)
        ensures
            s == aggregate_status(self@.fragments),
    {
        if self.is_complete() {
            FragmentStatus::Complete
        } else if self.has_status(FragmentStatus::Missing) {
            FragmentStatus::Missing
        } else {
            FragmentStatus::Pending
        }
    }

    /// Return indices of missing (-1) fragments.
    pub fn gaps(&self) -> (out: Vec<usize>)
        ensures
            out@ == indices_with(self@.fragments, FragmentStatus::Missing),
    {
        self.indices_of(FragmentStatus::Missing)
    }

    /// Return indices of pending (0) fragments.
    pub fn pending_indices(&self) -> (out: Vec<usize>)
        ensures
            out@ == indices_with(self@.fragments, FragmentStatus::Pending),
    {
        self.indices_of(FragmentStatus::Pending)
    }

    /// Compute forward progress: contiguous front-fill and counts. The
    /// front-fill is one past the recorded index of the last fragment of the
    /// longest complete prefix; for a well-formed message, the length of
    /// that prefix.
    pub fn progress(&self) -> (p: Progress)
        requires
            complete_indices_bounded(self@.fragments),
        ensures
            exists|k: int|
                is_complete_front(self@.fragments, k) && p.contiguous_front == #[trigger] front_fill(
                    self@.fragments,
                    k,
                ),
            self.wf() ==> is_complete_front(self@.fragments, p.contiguous_front as int),
            p.complete_count == count_with(self@.fragments, FragmentStatus::Complete),
            p.pending_count == count_with(self@.fragments, FragmentStatus::Pending),
            p.missing_count == count_with(self@.fragments, FragmentStatus::Missing),
    {
        let ghost fs = self@.fragments;
        let mut contiguous_front: usize = 0;
        let mut i: usize = 0;
        while i < self.fragments.len() && self.fragments[i].status == FragmentStatus::Complete
            invariant
                fs == self@.fragments,
                complete_indices_bounded(fs),
                i <= fs.len(),
                contiguous_front == front_fill(fs, i as int),
                forall|j: int| 0 <= j < i ==> #[trigger] fs[j].status == FragmentStatus::Complete,
            decreases fs.len() - i,
        {
            assert(fs[i as int].status == FragmentStatus::Complete);
            contiguous_front = self.fragments[i].index + 1;
            i += 1;
        }
        assert(is_complete_front(fs, i as int));
        proof {
            if self.wf() && i > 0 {
                assert(fs[i - 1].index == i - 1);
            }
        }
        let complete_count = self.count_of(FragmentStatus::Complete);
        let pending_count = self.count_of(FragmentStatus::Pending);
        let missing_count = self.count_of(FragmentStatus::Missing);
        Progress { contiguous_front, complete_count, pending_count, missing_count }
    }

    /// Past its time to live after `elapsed` since creation, and incomplete.
    pub fn is_expired_after(&self, elapsed: Duration) -> (r: bool)
        ensures
            r == self@.expired_after(elapsed),
    {
        !self.is_complete() && elapsed.nanos > self.ttl.nanos
    }

    /// Whether this message has exceeded its TTL, reading the clock: the
    /// answer of `is_expired_after` for the time elapsed since creation.
    pub fn is_expired(&self) -> (r: bool)
        ensures
            all_complete(self@.fragments) ==> !r,
            exists|elapsed: Duration|
                elapsed.nanos <= STD_DURATION_MAX_NANOS && r == #[trigger] self@.expired_after(elapsed),
    {
        if self.is_complete() {
            assert(!self@.expired_after(Duration { nanos: 0 }));
            return false;
        }
        let elapsed = time_since(&self.created_at);
        self.is_expired_after(elapsed)
    }

    /// Reassemble data in order (only if all fragments complete).
    pub fn reassemble(&self) -> (out: Option<Vec<u8>>)
        requires
            complete_hold_data(self@.fragments),
        ensures
            out is Some <==> all_complete(self@.fragments),
            out matches Some(v) ==> v@ == joined_data(self@.fragments),
    {
        if !self.is_complete() {
            return None;
        }
        let ghost fs = self@.fragments;
        let mut out: Vec<u8> = Vec::new();
        let mut i: usize = 0;
        while i < self.fragments.len()
            invariant
                fs == self@.fragments,
                i <= fs.len(),
                out@ == joined_data(fs.take(i as int)),
            decreases fs.len() - i,
        {
            assert(fs.take(i + 1).drop_last() =~= fs.take(i as int));
            match &self.fragments[i].data {
                Some(d) => {
                    let ghost before = out@;
                    let mut j: usize = 0;
                    while j < d.len()
                        invariant
                            j <= d@.len(),
                            out@ == before + d@.take(j as int),
                        decreases d@.len() - j,
                    {
                        out.push(d[j]);
                        j += 1;
                        assert(before + d@.take(j as int) =~= (before + d@.take(j - 1)).push(d@[j - 1]));
                    }
                    assert(d@.take(d@.len() as int) =~= d@);
                },
                None => {},
            }
            i += 1;
        }
        assert(fs.take(fs.len() as int) =~= fs);
        Some(out)
    }

    /// Every fragment is complete.
    pub fn is_complete(&self) -> (r: bool)
        ensures
            r == all_complete(self@.fragments),
    {
        let mut i: usize = 0;
        while i < self.fragments.len()
            invariant
                i <= self.fragments@.len(),
                forall|j: int| 0 <= j < i ==> #[trigger] self@.fragments[j].status == FragmentStatus::Complete,
            decreases self.fragments@.len() - i,
        {
            match self.fragments[i].status {
                FragmentStatus::Complete => {},
                _ => {
                    assert(self@.fragments[i as int].status != FragmentStatus::Complete);
                    return false;
                },
            }
            i += 1;
        }
        true
    }
}

} // verus!
