//! The fragment buffer: many messages under reassembly, and the record of
//! those that were finished or given up.

use vstd::prelude::*;
use std::collections::HashMap;
use std::time::Instant;
use vstd::std_specs::iter::IteratorSpec;
use crate::time::{Duration, time_since};
use crate::fragment::{
    FragmentStatus, Progress, aggregate_status, all_complete, count_with, indices_with,
    is_complete_front, joined_data,
};
use crate::message::{MessageBuffer, MessageView, fresh_message};

verus! {

broadcast use vstd::std_specs::hash::group_hash_axioms;

/// Per-message statistics, recorded when a message completes or expires.
#[derive(Debug, Clone, Copy)]
pub struct ReassemblyRecord {
    pub message_id: u64,
    pub total_fragments: usize,
    pub completed: bool,
    pub reassembly_time: Duration,
    pub fragments_completed: usize,
}

/// The main fragment buffer managing multiple messages.
#[derive(Debug)]
pub struct FragmentBuffer {
    messages: HashMap<u64, MessageBuffer>,
    default_ttl: Duration,
    records: Vec<ReassemblyRecord>,
}

/// What a fragment buffer holds: the messages under reassembly by id, the
/// clock reading each was created at, the time to live given to new messages, and the records of finished messages
/// in the order they were finished.
#[verifier::ext_equal]
pub struct BufferView {
    pub messages: Map<u64, MessageView>,
    /// When each message held was created.
    pub created: Map<u64, Instant>,
    pub default_ttl: Duration,
    pub records: Seq<ReassemblyRecord>,
}

impl BufferView {
    /// Finitely many messages are held, each well formed, filed under its
    /// own id, and with its creation time.
    pub open spec fn wf(self) -> bool {
        &&& self.messages.dom().finite()
        &&& self.created.dom() == self.messages.dom()
        &&& forall|id: u64| #[trigger] self.messages.contains_key(id) ==> {
            &&& self.messages[id].wf()
            &&& self.messages[id].message_id == id
        }
    }

    /// The same buffer with the contents of message `id` replaced by `m`; its
    /// creation time stays.
    pub open spec fn with_message(self, id: u64, m: MessageView) -> BufferView {
        BufferView { messages: self.messages.insert(id, m), ..self }
    }

    /// The same buffer with message `m` added under `id`, created at `at`.
    pub open spec fn with_new_message(self, id: u64, m: MessageView, at: Instant) -> BufferView {
        BufferView { messages: self.messages.insert(id, m), created: self.created.insert(id, at), ..self }
    }

    /// The same buffer without message `id`.
    pub open spec fn without_message(self, id: u64) -> BufferView {
        BufferView { messages: self.messages.remove(id), created: self.created.remove(id), ..self }
    }
}

/// `r` is the record of message `m`, given up unfinished: it names the
/// message, its size and how many of its fragments had arrived.
pub open spec fn records_expiry(r: ReassemblyRecord, m: MessageView) -> bool {
    &&& r.message_id == m.message_id
    &&& r.total_fragments == m.total_fragments
    &&& !r.completed
    &&& r.fragments_completed == count_with(m.fragments, FragmentStatus::Complete)
}

/// `r` is the record of message `m`, finished whole: it names the message and
/// its size, counts every fragment as arrived, and takes as its reassembly
/// time the moment the message became complete, where that was recorded.
pub open spec fn records_completion(r: ReassemblyRecord, m: MessageView) -> bool {
    &&& r.message_id == m.message_id
    &&& r.total_fragments == m.total_fragments
    &&& r.completed
    &&& r.fragments_completed == m.total_fragments
    &&& m.completed_at matches Some(t) ==> r.reassembly_time == t
}

/// How many records are of finished messages.
pub open spec fn completed_count(rs: Seq<ReassemblyRecord>) -> nat
    decreases rs.len(),
{
    if rs.len() == 0 {
        0
    } else {
        completed_count(rs.drop_last()) + if rs.last().completed {
            1nat
        } else {
            0nat
        }
    }
}

/// How many records are of messages given up.
pub open spec fn expired_count(rs: Seq<ReassemblyRecord>) -> nat
    decreases rs.len(),
{
    if rs.len() == 0 {
        0
    } else {
        expired_count(rs.drop_last()) + if rs.last().completed {
            0nat
        } else {
            1nat
        }
    }
}

/// The reassembly times of the finished messages, added up, in nanoseconds.
pub open spec fn completed_time_total(rs: Seq<ReassemblyRecord>) -> nat
    decreases rs.len(),
{
    if rs.len() == 0 {
        0
    } else {
        completed_time_total(rs.drop_last()) + if rs.last().completed {
            rs.last().reassembly_time.nanos as nat
        } else {
            0nat
        }
    }
}

/// The reassembly times of a prefix of the records add up to no more than
/// those of all of them.
pub proof fn lemma_time_total_prefix(rs: Seq<ReassemblyRecord>, i: int)
    requires
        0 <= i <= rs.len(),
    ensures
        completed_time_total(rs.take(i)) <= completed_time_total(rs),
    decreases rs.len(),
{
    if i == rs.len() {
        assert(rs.take(i) =~= rs);
    } else {
        lemma_time_total_prefix(rs.drop_last(), i);
        assert(rs.drop_last().take(i) =~= rs.take(i));
    }
}

/// No finished message took longer than the longest span a `u128` holds,
/// so the reassembly times add up to at most that span per finished message.
pub proof fn lemma_time_total_bound(rs: Seq<ReassemblyRecord>)
    ensures
        completed_time_total(rs) <= completed_count(rs) * (u128::MAX as int),
    decreases rs.len(),
{
    if rs.len() > 0 {
        lemma_time_total_bound(rs.drop_last());
    }
}

/// Statistics across all recorded messages. The share of finished messages
/// among all recorded ones is `completed_messages / total_messages` (zero
/// when nothing is recorded).
#[derive(Debug, Clone, Copy, Default)]
pub struct ReassemblyStats {
    pub total_messages: usize,
    pub completed_messages: usize,
    pub expired_messages: usize,
    pub average_reassembly_time: Duration,
}

/// The record of message `m`, given up `elapsed` after its creation.
pub open spec fn expiry_record(m: MessageView, elapsed: Duration) -> ReassemblyRecord {
    ReassemblyRecord {
        message_id: m.message_id,
        total_fragments: m.total_fragments,
        completed: false,
        reassembly_time: elapsed,
        fragments_completed: count_with(m.fragments, FragmentStatus::Complete) as usize,
    }
}

/// The message ids of the readings, in order.
pub open spec fn reading_ids(readings: Seq<(u64, Duration)>) -> Seq<u64> {
    readings.map_values(|r: (u64, Duration)| r.0)
}

/// The buffer, and the ids given up, after going through `readings` in
/// order: each reading is a message id and the time elapsed since that
/// message was created; a message still held and past its time to live at
/// that reading is removed and recorded as given up.
pub open spec fn expire_fold(b: BufferView, readings: Seq<(u64, Duration)>) -> (BufferView, Seq<u64>)
    decreases readings.len(),
{
    if readings.len() == 0 {
        (b, Seq::empty())
    } else {
        let prev = expire_fold(b, readings.drop_last());
        let id = readings.last().0;
        let elapsed = readings.last().1;
        if prev.0.messages.contains_key(id) && prev.0.messages[id].expired_after(elapsed) {
            (
                BufferView {
                    messages: prev.0.messages.remove(id),
                    created: prev.0.created.remove(id),
                    default_ttl: prev.0.default_ttl,
                    records: prev.0.records.push(expiry_record(prev.0.messages[id], elapsed)),
                },
                prev.1.push(id),
            )
        } else {
            prev
        }
    }
}

/// What expiring does, whatever the readings: the ids given up are distinct
/// messages that were held and never completed; exactly they leave the
/// buffer; one record is appended for each, in the same order, and the
/// records before stay as they were.
pub proof fn lemma_expire_fold(b: BufferView, readings: Seq<(u64, Duration)>)
    requires
        b.wf(),
    ensures
        expire_fold(b, readings).0.wf(),
        expire_fold(b, readings).1.no_duplicates(),
        forall|k: int| 0 <= k < expire_fold(b, readings).1.len() ==> {
            &&& b.messages.contains_key(#[trigger] expire_fold(b, readings).1[k])
            &&& !all_complete(b.messages[expire_fold(b, readings).1[k]].fragments)
            &&& records_expiry(
                expire_fold(b, readings).0.records[b.records.len() + k],
                b.messages[expire_fold(b, readings).1[k]],
            )
            &&& expire_fold(b, readings).0.records[b.records.len() + k].reassembly_time.nanos
                > b.messages[expire_fold(b, readings).1[k]].ttl.nanos
            &&& expire_fold(b, readings).0.records[b.records.len() + k].message_id
                == expire_fold(b, readings).1[k]
        },
        expire_fold(b, readings).0.messages == b.messages.remove_keys(expire_fold(b, readings).1.to_set()),
        expire_fold(b, readings).0.created == b.created.remove_keys(expire_fold(b, readings).1.to_set()),
        expire_fold(b, readings).0.default_ttl == b.default_ttl,
        expire_fold(b, readings).0.records.len() == b.records.len() + expire_fold(b, readings).1.len(),
        expire_fold(b, readings).0.records.take(b.records.len() as int) == b.records,
    decreases readings.len(),
{
    if readings.len() > 0 {
        let rest = readings.drop_last();
        lemma_expire_fold(b, rest);
        let prev = expire_fold(b, rest);
        let id = readings.last().0;
        let elapsed = readings.last().1;
        if prev.0.messages.contains_key(id) && prev.0.messages[id].expired_after(elapsed) {
            let cur = expire_fold(b, readings);
            assert(!prev.1.contains(id)) by {
                if prev.1.contains(id) {
                    assert(prev.1.to_set().contains(id));
                }
            }
            lemma_push_to_set(prev.1, id);
            assert(cur.0.messages =~= b.messages.remove_keys(cur.1.to_set()));
            assert(cur.0.created =~= b.created.remove_keys(cur.1.to_set()));
            assert(cur.0.records.take(b.records.len() as int) =~= b.records) by {
                assert(prev.0.records.take(b.records.len() as int) =~= b.records);
            }
            assert forall|k: int| 0 <= k < cur.1.len() implies {
                &&& b.messages.contains_key(#[trigger] cur.1[k])
                &&& !all_complete(b.messages[cur.1[k]].fragments)
                &&& records_expiry(cur.0.records[b.records.len() + k], b.messages[cur.1[k]])
                &&& cur.0.records[b.records.len() + k].reassembly_time.nanos > b.messages[cur.1[k]].ttl.nanos
                &&& cur.0.records[b.records.len() + k].message_id == cur.1[k]
            } by {
                if k < prev.1.len() {
                    assert(cur.1[k] == prev.1[k]);
                    assert(cur.0.records[b.records.len() + k] == prev.0.records[b.records.len() + k]);
                } else {
                    assert(cur.1[k] == id);
                    assert(prev.0.messages[id] == b.messages[id]);
                    crate::fragment::lemma_indices_with_len(prev.0.messages[id].fragments, FragmentStatus::Complete);
                }
            }
        }
    }
}

proof fn lemma_push_to_set(s: Seq<u64>, x: u64)
    ensures
        s.push(x).to_set() == s.to_set().insert(x),
{
    s.lemma_push_to_set_commute(x);
}

impl View for FragmentBuffer {
    type V = BufferView;

    closed spec fn view(&self) -> BufferView {
        BufferView {
            messages: self.messages@.map_values(|m: MessageBuffer| m@),
            created: self.messages@.map_values(|m: MessageBuffer| m.created_at),
            default_ttl: self.default_ttl,
            records: self.records@,
        }
    }
}

impl FragmentBuffer {
    pub open spec fn wf(&self) -> bool {
        self@.wf()
    }

    pub fn new(default_ttl: Duration) -> (b: Self)
        ensures
            b.wf(),
            b@.messages == Map::<u64, MessageView>::empty(),
            b@.default_ttl == default_ttl,
            b@.records == Seq::<ReassemblyRecord>::empty(),
    {
        let b = FragmentBuffer { messages: HashMap::new(), default_ttl, records: Vec::new() };
        assert(b@.messages =~= Map::<u64, MessageView>::empty());
        b
    }

    /// Create a new message buffer with a custom TTL. A message already
    /// filed under `message_id` is kept as it is.
    pub fn create_message_with_ttl(&mut self, message_id: u64, total_fragments: usize, ttl: Duration) -> (m: &MessageBuffer)
        requires
            old(self).wf(),
        ensures
            final(self).wf(),
            old(self)@.messages.contains_key(message_id) ==> final(self)@ == old(self)@,
            !old(self)@.messages.contains_key(message_id) ==> final(self)@ == old(self)@.with_new_message(
                message_id,
                fresh_message(message_id, total_fragments, ttl),
                m.created_at,
            ),
            m@ == final(self)@.messages[message_id],
            m.created_at == final(self)@.created[message_id],
    {
        if !self.messages.contains_key(&message_id) {
            let fresh = MessageBuffer::new(message_id, total_fragments, ttl);
            self.messages.insert(message_id, fresh);
            assert(self@.messages =~= old(self)@.messages.insert(message_id, fresh_message(message_id, total_fragments, ttl)));
        }
        self.messages.get(&message_id).unwrap()
    }

    /// Create a new message buffer for reassembly, with the default TTL.
    pub fn create_message(&mut self, message_id: u64, total_fragments: usize) -> (m: &MessageBuffer)
        requires
            old(self).wf(),
        ensures
            final(self).wf(),
            old(self)@.messages.contains_key(message_id) ==> final(self)@ == old(self)@,
            !old(self)@.messages.contains_key(message_id) ==> final(self)@ == old(self)@.with_new_message(
                message_id,
                fresh_message(message_id, total_fragments, old(self)@.default_ttl),
                m.created_at,
            ),
            m@ == final(self)@.messages[message_id],
            m.created_at == final(self)@.created[message_id],
    {
        let ttl = self.default_ttl;
        self.create_message_with_ttl(message_id, total_fragments, ttl)
    }

    /// Mark a fragment complete for a given message.
    pub fn mark_fragment_complete(&mut self, message_id: u64, index: usize, data: Vec<u8>) -> (r: Result<(), &'static str>)
        requires
            old(self).wf(),
        ensures
            final(self).wf(),
            !old(self)@.messages.contains_key(message_id) ==> {
                &&& r matches Err(e) && e@ == "message not found"@
                &&& final(self)@ == old(self)@
            },
            old(self)@.messages.contains_key(message_id) && index >= old(self)@.messages[message_id].total_fragments ==> {
                &&& r matches Err(e) && e@ == "fragment index out of range"@
                &&& final(self)@ == old(self)@
            },
            old(self)@.messages.contains_key(message_id) && index < old(self)@.messages[message_id].total_fragments ==> {
                &&& r is Ok
                &&& exists|now: Duration| final(self)@ == old(self)@.with_message(
                    message_id,
                    #[trigger] old(self)@.messages[message_id].after_complete(index as int, data@, now),
                )
            },
    {
        match self.messages.remove(&message_id) {
            None => {
                assert(self@.messages =~= old(self)@.messages);
                Err("message not found")
            },
            Some(mut msg) => {
                assert(old(self)@.messages.contains_key(message_id));
                assert(old(self)@.messages[message_id] == msg@);
                let ghost data_view = data@;
                let r = msg.mark_complete(index, data);
                let ghost mv = msg@;
                self.messages.insert(message_id, msg);
                assert(self@.messages =~= old(self)@.messages.insert(message_id, mv));
                proof {
                    if index < mv.total_fragments {
                        let now = choose|now: Duration| mv == old(self)@.messages[message_id].after_complete(index as int, data_view, now);
                        assert(self@ == old(self)@.with_message(message_id, old(self)@.messages[message_id].after_complete(index as int, data_view, now)));
                    } else {
                        assert(self@.messages =~= old(self)@.messages);
                    }
                }
                r
            },
        }
    }

    /// Mark a fragment missing for a given message.
    pub fn mark_fragment_missing(&mut self, message_id: u64, index: usize) -> (r: Result<(), &'static str>)
        requires
            old(self).wf(),
        ensures
            final(self).wf(),
            !old(self)@.messages.contains_key(message_id) ==> {
                &&& r matches Err(e) && e@ == "message not found"@
                &&& final(self)@ == old(self)@
            },
            old(self)@.messages.contains_key(message_id) && index >= old(self)@.messages[message_id].total_fragments ==> {
                &&& r matches Err(e) && e@ == "fragment index out of range"@
                &&& final(self)@ == old(self)@
            },
            old(self)@.messages.contains_key(message_id) && index < old(self)@.messages[message_id].total_fragments ==> {
                &&& r is Ok
                &&& exists|now: Duration| final(self)@ == old(self)@.with_message(
                    message_id,
                    #[trigger] old(self)@.messages[message_id].after_missing(index as int, now),
                )
            },
    {
        match self.messages.remove(&message_id) {
            None => {
                assert(self@.messages =~= old(self)@.messages);
                Err("message not found")
            },
            Some(mut msg) => {
                assert(old(self)@.messages.contains_key(message_id));
                assert(old(self)@.messages[message_id] == msg@);
                let r = msg.mark_missing(index);
                let ghost mv = msg@;
                self.messages.insert(message_id, msg);
                assert(self@.messages =~= old(self)@.messages.insert(message_id, mv));
                proof {
                    if index < mv.total_fragments {
                        let now = choose|now: Duration| mv == old(self)@.messages[message_id].after_missing(index as int, now);
                        assert(self@ == old(self)@.with_message(message_id, old(self)@.messages[message_id].after_missing(index as int, now)));
                    } else {
                        assert(self@.messages =~= old(self)@.messages);
                    }
                }
                r
            },
        }
    }

    /// Get ternary status for a message.
    pub fn message_status(&self, message_id: u64) -> (s: Option<FragmentStatus>)
        ensures
            s == (if self@.messages.contains_key(message_id) {
                Some(aggregate_status(self@.messages[message_id].fragments))
            } else {
                None
            }),
    {
        match self.messages.get(&message_id) {
            Some(m) => Some(m.ternary_status()),
            None => None,
        }
    }

    /// Get gap list for a message.
    pub fn gaps(&self, message_id: u64) -> (g: Option<Vec<usize>>)
        ensures
            g is Some <==> self@.messages.contains_key(message_id),
            g matches Some(v) ==> v@ == indices_with(self@.messages[message_id].fragments, FragmentStatus::Missing),
    {
        match self.messages.get(&message_id) {
            Some(m) => Some(m.gaps()),
            None => None,
        }
    }

    /// Get progress for a message.
    pub fn progress(&self, message_id: u64) -> (p: Option<Progress>)
        requires
            self.wf(),
        ensures
            p is Some <==> self@.messages.contains_key(message_id),
            p matches Some(p) ==> {
                let fs = self@.messages[message_id].fragments;
                &&& is_complete_front(fs, p.contiguous_front as int)
                &&& p.complete_count == count_with(fs, FragmentStatus::Complete)
                &&& p.pending_count == count_with(fs, FragmentStatus::Pending)
                &&& p.missing_count == count_with(fs, FragmentStatus::Missing)
            },
    {
        match self.messages.get(&message_id) {
            Some(m) => {
                assert(self@.messages.contains_key(message_id));
                assert(self@.messages[message_id] == m@);
                Some(m.progress())
            },
            None => None,
        }
    }

    /// The ids of the messages under reassembly, each once, in the order in
    /// which the map hands them out.
    fn message_ids(&self) -> (ids: Vec<u64>)
        ensures
            ids@.no_duplicates(),
            ids@.to_set() == self@.messages.dom(),
    {
        let ghost all_ids = vstd::std_specs::hash::spec_keys_iter(&self.messages).remaining().unref();
        let mut ids: Vec<u64> = Vec::new();
        for id in it: self.messages.keys()
            invariant
                it.seq().unref() == all_ids,
                ids@ == all_ids.take(it.index()),
        {
            ids.push(*id);
            assert(ids@ =~= all_ids.take(it.index() + 1));
        }
        assert(ids@ =~= all_ids);
        assert(self@.messages.dom() =~= self.messages@.dom());
        ids
    }

    /// Expire, going through `readings` in order, the messages past their
    /// TTL: each reading is a message id and the time elapsed since that
    /// message was created. A message still held and past its TTL at its
    /// reading is removed and recorded as given up after that time; its id
    /// is returned.
    pub fn expire_with_elapsed(&mut self, readings: &Vec<(u64, Duration)>) -> (expired: Vec<u64>)
        requires
            old(self).wf(),
        ensures
            final(self)@ == expire_fold(old(self)@, readings@).0,
            expired@ == expire_fold(old(self)@, readings@).1,
            final(self).wf(),
            expired@.no_duplicates(),
            forall|k: int| 0 <= k < expired@.len() ==> {
                &&& old(self)@.messages.contains_key(#[trigger] expired@[k])
                &&& !all_complete(old(self)@.messages[expired@[k]].fragments)
                &&& records_expiry(
                    final(self)@.records[old(self)@.records.len() + k],
                    old(self)@.messages[expired@[k]],
                )
                &&& final(self)@.records[old(self)@.records.len() + k].reassembly_time.nanos
                    > old(self)@.messages[expired@[k]].ttl.nanos
                &&& final(self)@.records[old(self)@.records.len() + k].message_id == expired@[k]
            },
            final(self)@.messages == old(self)@.messages.remove_keys(expired@.to_set()),
            final(self)@.created == old(self)@.created.remove_keys(expired@.to_set()),
            final(self)@.default_ttl == old(self)@.default_ttl,
            final(self)@.records.len() == old(self)@.records.len() + expired@.len(),
            final(self)@.records.take(old(self)@.records.len() as int) == old(self)@.records,
    {
        let mut expired: Vec<u64> = Vec::new();
        let mut i: usize = 0;
        while i < readings.len()
            invariant
                i <= readings@.len(),
                self@ == expire_fold(old(self)@, readings@.take(i as int)).0,
                expired@ == expire_fold(old(self)@, readings@.take(i as int)).1,
                old(self)@.wf(),
            decreases readings@.len() - i,
        {
            proof {
                lemma_expire_fold(old(self)@, readings@.take(i as int));
            }
            assert(readings@.take(i + 1).drop_last() =~= readings@.take(i as int));
            let (id, elapsed) = readings[i];
            assert(self@.wf());
            if self.messages.contains_key(&id) {
                let m = self.messages.get(&id).unwrap();
                assert(self@.messages[id] == m@);
                if m.is_expired_after(elapsed) {
                    let ghost before = self@;
                    match self.messages.remove(&id) {
                        Some(msg) => {
                            assert(before.messages.contains_key(id));
                            assert(before.messages[id] == msg@);
                            assert(msg@.wf());
                            let p = msg.progress();
                            self.records.push(
                                ReassemblyRecord {
                                    message_id: msg.message_id,
                                    total_fragments: msg.total_fragments,
                                    completed: false,
                                    reassembly_time: elapsed,
                                    fragments_completed: p.complete_count,
                                },
                            );
                        },
                        None => {},
                    }
                    expired.push(id);
                    assert(self@.messages =~= before.messages.remove(id));
                }
            }
            i += 1;
        }
        assert(readings@.take(readings@.len() as int) =~= readings@);
        proof {
            lemma_expire_fold(old(self)@, readings@);
        }
        expired
    }

    /// Expire all messages past their TTL, recording stats. The clock is
    /// read once for each message held; the ids of the messages given up are
    /// returned, each once, in the order the map hands them out.
    pub fn expire(&mut self) -> (expired: Vec<u64>)
        requires
            old(self).wf(),
        ensures
            exists|readings: Seq<(u64, Duration)>| {
                &&& #[trigger] reading_ids(readings).to_set() == old(self)@.messages.dom()
                &&& reading_ids(readings).no_duplicates()
                &&& final(self)@ == expire_fold(old(self)@, readings).0
                &&& expired@ == expire_fold(old(self)@, readings).1
            },
            final(self).wf(),
            expired@.no_duplicates(),
            forall|k: int| 0 <= k < expired@.len() ==> {
                &&& old(self)@.messages.contains_key(#[trigger] expired@[k])
                &&& !all_complete(old(self)@.messages[expired@[k]].fragments)
                &&& records_expiry(
                    final(self)@.records[old(self)@.records.len() + k],
                    old(self)@.messages[expired@[k]],
                )
                &&& final(self)@.records[old(self)@.records.len() + k].reassembly_time.nanos
                    > old(self)@.messages[expired@[k]].ttl.nanos
                &&& final(self)@.records[old(self)@.records.len() + k].message_id == expired@[k]
            },
            final(self)@.messages == old(self)@.messages.remove_keys(expired@.to_set()),
            final(self)@.created == old(self)@.created.remove_keys(expired@.to_set()),
            final(self)@.default_ttl == old(self)@.default_ttl,
            final(self)@.records.len() == old(self)@.records.len() + expired@.len(),
            final(self)@.records.take(old(self)@.records.len() as int) == old(self)@.records,
    {
        let ids = self.message_ids();
        let mut readings: Vec<(u64, Duration)> = Vec::new();
        let mut i: usize = 0;
        while i < ids.len()
            invariant
                self@ == old(self)@,
                self.wf(),
                ids@.to_set() == self@.messages.dom(),
                i <= ids@.len(),
                readings@.len() == i,
                forall|k: int| 0 <= k < i ==> #[trigger] readings@[k].0 == ids@[k],
            decreases ids@.len() - i,
        {
            let id = ids[i];
            assert(ids@.to_set().contains(id));
            let m = self.messages.get(&id).unwrap();
            let elapsed = time_since(&m.created_at);
            readings.push((id, elapsed));
            i += 1;
        }
        assert(reading_ids(readings@) =~= ids@);
        proof {
            lemma_expire_fold(old(self)@, readings@);
        }
        self.expire_with_elapsed(&readings)
    }

    /// Finalize a completed message: remove it from the buffer, record its
    /// statistics and return its data, joined in fragment order.
    pub fn finalize(&mut self, message_id: u64) -> (out: Option<Vec<u8>>)
        requires
            old(self).wf(),
        ensures
            final(self).wf(),
            out is Some <==> old(self)@.messages.contains_key(message_id) && all_complete(
                old(self)@.messages[message_id].fragments,
            ),
            out is None ==> final(self)@ == old(self)@,
            out matches Some(v) ==> {
                let m = old(self)@.messages[message_id];
                &&& v@ == joined_data(m.fragments)
                &&& final(self)@.messages == old(self)@.messages.remove(message_id)
                &&& final(self)@.created == old(self)@.created.remove(message_id)
                &&& final(self)@.default_ttl == old(self)@.default_ttl
                &&& final(self)@.records.len() == old(self)@.records.len() + 1
                &&& final(self)@.records.drop_last() == old(self)@.records
                &&& records_completion(final(self)@.records.last(), m)
                &&& final(self)@.records.last().message_id == message_id
            },
    {
        let msg = match self.messages.get(&message_id) {
            Some(m) => m,
            None => {
                return None;
            },
        };
        assert(self@.messages.contains_key(message_id));
        assert(self@.messages[message_id] == msg@);
        assert(msg.wf());
        if !msg.is_complete() {
            return None;
        }
        let data = match msg.reassemble() {
            Some(d) => d,
            None => {
                return None;
            },
        };
        let reassembly_time = match msg.completed_at {
            Some(t) => t,
            None => time_since(&msg.created_at),
        };
        let total_fragments = msg.total_fragments;
        self.records.push(
            ReassemblyRecord {
                message_id,
                total_fragments,
                completed: true,
                reassembly_time,
                fragments_completed: total_fragments,
            },
        );
        self.messages.remove(&message_id);
        assert(self@.messages =~= old(self)@.messages.remove(message_id));
        assert(self@.created =~= old(self)@.created.remove(message_id));
        assert(self@.records.drop_last() =~= old(self)@.records);
        Some(data)
    }

    /// Compute aggregate statistics across all recorded messages. The
    /// average is taken over the finished messages, rounded down to the
    /// nanosecond.
    pub fn stats(&self) -> (st: ReassemblyStats)
        ensures
            st.total_messages == self@.records.len(),
            st.completed_messages == completed_count(self@.records),
            st.expired_messages == expired_count(self@.records),
            st.average_reassembly_time.nanos == if completed_count(self@.records) > 0 {
                completed_time_total(self@.records) / completed_count(self@.records)
            } else {
                0
            },
    {
        let ghost rs = self@.records;
        let total = self.records.len();
        let mut completed: usize = 0;
        let mut expired: usize = 0;
        let mut i: usize = 0;
        while i < total
            invariant
                rs == self@.records,
                total == rs.len(),
                i <= total,
                completed == completed_count(rs.take(i as int)),
                expired == expired_count(rs.take(i as int)),
                completed + expired == i,
            decreases total - i,
        {
            assert(rs.take(i + 1).drop_last() =~= rs.take(i as int));
            if self.records[i].completed {
                completed += 1;
            } else {
                expired += 1;
            }
            i += 1;
        }
        assert(rs.take(total as int) =~= rs);
        if completed == 0 {
            return ReassemblyStats {
                total_messages: total,
                completed_messages: completed,
                expired_messages: expired,
                average_reassembly_time: Duration::zero(),
            };
        }
        // The sum of the reassembly times may not fit in 128 bits, so it is
        // kept as a quotient and a remainder of the division by `completed`.
        let divisor = completed as u128;
        proof {
            lemma_time_total_bound(rs);
        }
        let mut quotient: u128 = 0;
        let mut remainder: u128 = 0;
        let mut k: usize = 0;
        while k < total
            invariant
                rs == self@.records,
                total == rs.len(),
                k <= total,
                divisor == completed_count(rs),
                divisor > 0,
                divisor <= usize::MAX,
                completed_time_total(rs) <= divisor * (u128::MAX as int),
                remainder < divisor,
                quotient * divisor + remainder == completed_time_total(rs.take(k as int)),
            decreases total - k,
        {
            assert(rs.take(k + 1).drop_last() =~= rs.take(k as int));
            proof {
                lemma_time_total_prefix(rs, k + 1);
            }
            if self.records[k].completed {
                let t = self.records[k].reassembly_time.nanos;
                let a = t / divisor;
                let b = t % divisor;
                assert(b < divisor);
                let ghost partial = completed_time_total(rs.take(k as int));
                proof {
                    vstd::arithmetic::div_mod::lemma_fundamental_div_mod(t as int, divisor as int);
                    assert((quotient + a) * divisor + remainder + b == partial + t) by (nonlinear_arith)
                        requires
                            quotient * divisor + remainder == partial,
                            t == divisor * a + b,
                    ;
                    let top = if remainder + b >= divisor { quotient + a + 1 } else { quotient + a };
                    assert(top * divisor <= partial + t) by (nonlinear_arith)
                        requires
                            (quotient + a) * divisor + remainder + b == partial + t,
                            top == (if remainder + b >= divisor { quotient + a + 1 } else { quotient + a }),
                            remainder + b >= 0,
                    ;
                    assert(top <= u128::MAX) by (nonlinear_arith)
                        requires
                            top * divisor <= partial + t,
                            partial + t <= divisor * (u128::MAX as int),
                            divisor > 0,
                    ;
                }
                quotient = quotient + a;
                remainder = remainder + b;
                if remainder >= divisor {
                    quotient = quotient + 1;
                    remainder = remainder - divisor;
                    assert(quotient * divisor + remainder == partial + t) by (nonlinear_arith)
                        requires
                            (quotient - 1) * divisor + remainder + divisor == partial + t,
                    ;
                }
            }
            k += 1;
        }
        assert(rs.take(total as int) =~= rs);
        proof {
            vstd::arithmetic::div_mod::lemma_fundamental_div_mod_converse(
                completed_time_total(rs) as int,
                divisor as int,
                quotient as int,
                remainder as int,
            );
        }
        ReassemblyStats {
            total_messages: total,
            completed_messages: completed,
            expired_messages: expired,
            average_reassembly_time: Duration::from_nanos(quotient),
        }
    }

    /// The message filed under `message_id`, if any.
    pub fn message(&self, message_id: u64) -> (m: Option<&MessageBuffer>)
        ensures
            m is Some <==> self@.messages.contains_key(message_id),
            m matches Some(m) ==> m@ == self@.messages[message_id],
    {
        self.messages.get(&message_id)
    }

    /// Number of active messages in the buffer.
    pub fn active_count(&self) -> (n: usize)
        ensures
            n == self@.messages.len(),
    {
        assert(self@.messages.dom() =~= self.messages@.dom());
        self.messages.len()
    }
}

} // verus!
