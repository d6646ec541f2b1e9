//! What holds of the library as a whole: the ternary status against the
//! fragment counts, the gap list, forward progress, what arrivals and
//! losses do to what a reader later gets back, expiry, and statistics.

use vstd::prelude::*;
use crate::time::Duration;
use crate::fragment::{
    FragmentStatus, FragmentView, aggregate_status, all_complete, count_with, indices_with,
    is_complete_front, joined_data, some_with,
};
use crate::message::{MessageView, fresh_message};
use crate::buffer::{
    BufferView, ReassemblyRecord, completed_count, completed_time_total, expire_fold, expired_count,
};

verus! {

proof fn lemma_count_positive(fs: Seq<FragmentView>, s: FragmentStatus)
    ensures
        count_with(fs, s) > 0 <==> some_with(fs, s),
    decreases fs.len(),
{
    if fs.len() > 0 {
        let rest = fs.drop_last();
        lemma_count_positive(rest, s);
        if some_with(rest, s) {
            let i = choose|i: int| 0 <= i < rest.len() && #[trigger] rest[i].status == s;
            assert(fs[i].status == s);
        }
        if some_with(fs, s) && fs.last().status != s {
            let i = choose|i: int| 0 <= i < fs.len() && #[trigger] fs[i].status == s;
            assert(rest[i].status == s);
        }
        if fs.last().status == s {
            assert(fs[fs.len() - 1].status == s);
        }
    }
}

proof fn lemma_count_full(fs: Seq<FragmentView>, s: FragmentStatus)
    ensures
        count_with(fs, s) <= fs.len(),
        count_with(fs, s) == fs.len() <==> forall|i: int| 0 <= i < fs.len() ==> #[trigger] fs[i].status == s,
    decreases fs.len(),
{
    if fs.len() > 0 {
        let rest = fs.drop_last();
        lemma_count_full(rest, s);
        if forall|i: int| 0 <= i < fs.len() ==> #[trigger] fs[i].status == s {
            assert forall|i: int| 0 <= i < rest.len() implies #[trigger] rest[i].status == s by {
                assert(fs[i].status == s);
            }
            assert(fs[fs.len() - 1].status == s);
        }
        if count_with(fs, s) == fs.len() {
            assert forall|i: int| 0 <= i < fs.len() implies #[trigger] fs[i].status == s by {
                if i < rest.len() {
                    assert(rest[i].status == s);
                }
            }
        }
    }
}

proof fn lemma_counts_sum(fs: Seq<FragmentView>)
    ensures
        count_with(fs, FragmentStatus::Complete) + count_with(fs, FragmentStatus::Pending)
            + count_with(fs, FragmentStatus::Missing) == fs.len(),
    decreases fs.len(),
{
    if fs.len() > 0 {
        lemma_counts_sum(fs.drop_last());
    }
}

proof fn lemma_indices_exact(fs: Seq<FragmentView>, s: FragmentStatus)
    requires
        forall|i: int| 0 <= i < fs.len() ==> #[trigger] fs[i].index == i,
    ensures
        forall|k: int| 0 <= k < indices_with(fs, s).len() ==> {
            &&& #[trigger] indices_with(fs, s)[k] < fs.len()
            &&& fs[indices_with(fs, s)[k] as int].status == s
        },
        forall|k: int, l: int| 0 <= k < l < indices_with(fs, s).len() ==>
            #[trigger] indices_with(fs, s)[k] < #[trigger] indices_with(fs, s)[l],
        forall|i: int| 0 <= i < fs.len() && #[trigger] fs[i].status == s ==> indices_with(fs, s).contains(i as usize),
    decreases fs.len(),
{
    if fs.len() > 0 {
        let rest = fs.drop_last();
        assert forall|i: int| 0 <= i < rest.len() implies #[trigger] rest[i].index == i by {
            assert(fs[i].index == i);
        }
        lemma_indices_exact(rest, s);
        let g = indices_with(fs, s);
        let h = indices_with(rest, s);
        assert(fs[fs.len() - 1].index == fs.len() - 1);
        assert forall|i: int| 0 <= i < fs.len() && #[trigger] fs[i].status == s implies g.contains(i as usize) by {
            if i < rest.len() {
                assert(rest[i].status == s);
                let k = choose|k: int| 0 <= k < h.len() && h[k] == i as usize;
                assert(g[k] == i as usize);
            } else {
                assert(g[g.len() - 1] == i as usize);
            }
        }
        assert forall|k: int| 0 <= k < g.len() implies {
            &&& #[trigger] g[k] < fs.len()
            &&& fs[g[k] as int].status == s
        } by {
            if k < h.len() {
                assert(g[k] == h[k]);
                assert(rest[h[k] as int].status == s);
            }
        }
    }
}

/// The message-level status agrees with the fragment counts: a message is
/// complete exactly when every one of its fragments is, missing exactly when
/// at least one fragment is missing, and pending exactly when none is missing
/// and some fragment has not arrived.
pub proof fn law_status_matches_counts(m: MessageView)
    requires
        m.wf(),
    ensures
        aggregate_status(m.fragments) == FragmentStatus::Complete <==> count_with(
            m.fragments,
            FragmentStatus::Complete,
        ) == m.total_fragments,
        aggregate_status(m.fragments) == FragmentStatus::Missing <==> count_with(
            m.fragments,
            FragmentStatus::Missing,
        ) > 0,
        aggregate_status(m.fragments) == FragmentStatus::Pending <==> count_with(
            m.fragments,
            FragmentStatus::Missing,
        ) == 0 && count_with(m.fragments, FragmentStatus::Complete) < m.total_fragments,
{
    let fs = m.fragments;
    lemma_count_full(fs, FragmentStatus::Complete);
    lemma_count_positive(fs, FragmentStatus::Missing);
    if all_complete(fs) && some_with(fs, FragmentStatus::Missing) {
        let i = choose|i: int| 0 <= i < fs.len() && #[trigger] fs[i].status == FragmentStatus::Missing;
        assert(fs[i].status == FragmentStatus::Complete);
    }
}

/// Every fragment is counted once: complete, pending and missing fragments
/// add up to the size of the message.
pub proof fn law_counts_partition(m: MessageView)
    requires
        m.wf(),
    ensures
        count_with(m.fragments, FragmentStatus::Complete) + count_with(m.fragments, FragmentStatus::Pending)
            + count_with(m.fragments, FragmentStatus::Missing) == m.total_fragments,
{
    lemma_counts_sum(m.fragments);
}

/// The contiguous front-fill is made of complete fragments, so it never
/// exceeds the complete count, and it covers the whole message exactly when
/// the message is complete.
pub proof fn law_front_within_complete(m: MessageView, k: int)
    requires
        m.wf(),
        is_complete_front(m.fragments, k),
    ensures
        k <= count_with(m.fragments, FragmentStatus::Complete),
        k == m.total_fragments <==> all_complete(m.fragments),
{
    let fs = m.fragments;
    let prefix = fs.take(k);
    assert forall|i: int| 0 <= i < prefix.len() implies #[trigger] prefix[i].status == FragmentStatus::Complete by {
        assert(fs[i].status == FragmentStatus::Complete);
    }
    lemma_count_full(prefix, FragmentStatus::Complete);
    lemma_count_prefix(fs, k, FragmentStatus::Complete);
}

proof fn lemma_count_prefix(fs: Seq<FragmentView>, k: int, s: FragmentStatus)
    requires
        0 <= k <= fs.len(),
    ensures
        count_with(fs.take(k), s) <= count_with(fs, s),
    decreases fs.len(),
{
    if k == fs.len() {
        assert(fs.take(k) =~= fs);
    } else {
        lemma_count_prefix(fs.drop_last(), k, s);
        assert(fs.drop_last().take(k) =~= fs.take(k));
    }
}

/// The gap list (and likewise the list of pending fragments) is sorted,
/// strictly ascending, and holds exactly the indices of the fragments with
/// that status.
pub proof fn law_index_list_exact(m: MessageView, s: FragmentStatus)
    requires
        m.wf(),
    ensures
        forall|k: int, l: int| 0 <= k < l < indices_with(m.fragments, s).len() ==>
            #[trigger] indices_with(m.fragments, s)[k] < #[trigger] indices_with(m.fragments, s)[l],
        forall|i: int| 0 <= i < m.total_fragments ==> (indices_with(m.fragments, s).contains(i as usize)
            <==> #[trigger] m.fragments[i].status == s),
        forall|k: int| 0 <= k < indices_with(m.fragments, s).len() ==> #[trigger] indices_with(m.fragments, s)[k]
            < m.total_fragments,
{
    lemma_indices_exact(m.fragments, s);
    let g = indices_with(m.fragments, s);
    assert forall|i: int| 0 <= i < m.total_fragments implies (g.contains(i as usize)
        <==> #[trigger] m.fragments[i].status == s) by {
        if g.contains(i as usize) {
            let k = choose|k: int| 0 <= k < g.len() && g[k] == i as usize;
            assert(m.fragments[g[k] as int].status == s);
        }
    }
}

/// A new message of `n` fragments has every fragment pending, no gaps, and
/// is pending itself unless it has no fragments at all.
pub proof fn law_fresh_message(message_id: u64, n: usize, ttl: Duration)
    ensures
        fresh_message(message_id, n, ttl).wf(),
        count_with(fresh_message(message_id, n, ttl).fragments, FragmentStatus::Pending) == n,
        count_with(fresh_message(message_id, n, ttl).fragments, FragmentStatus::Complete) == 0,
        count_with(fresh_message(message_id, n, ttl).fragments, FragmentStatus::Missing) == 0,
        indices_with(fresh_message(message_id, n, ttl).fragments, FragmentStatus::Missing).len() == 0,
        aggregate_status(fresh_message(message_id, n, ttl).fragments) == if n == 0 {
            FragmentStatus::Complete
        } else {
            FragmentStatus::Pending
        },
{
    let m = fresh_message(message_id, n, ttl);
    let fs = m.fragments;
    lemma_count_full(fs, FragmentStatus::Pending);
    lemma_counts_sum(fs);
    lemma_count_positive(fs, FragmentStatus::Missing);
    if some_with(fs, FragmentStatus::Missing) {
        let i = choose|i: int| 0 <= i < fs.len() && #[trigger] fs[i].status == FragmentStatus::Missing;
    }
    if n > 0 {
        assert(fs[0].status == FragmentStatus::Pending);
    }
}

/// A report on one fragment: its data arrived, or it was found missing.
pub enum Report {
    Arrival { index: usize, data: Seq<u8>, at: Duration },
    Loss { index: usize, at: Duration },
}

impl Report {
    /// The fragment the report is about.
    pub open spec fn fragment(self) -> usize {
        match self {
            Report::Arrival { index, .. } => index,
            Report::Loss { index, .. } => index,
        }
    }
}

/// A message after the reports, taken in the order given.
pub open spec fn after_reports(m: MessageView, reports: Seq<Report>) -> MessageView
    decreases reports.len(),
{
    if reports.len() == 0 {
        m
    } else {
        let before = after_reports(m, reports.drop_last());
        match reports.last() {
            Report::Arrival { index, data, at } => before.after_complete(index as int, data, at),
            Report::Loss { index, at } => before.after_missing(index as int, at),
        }
    }
}

/// The data that fragment `i` holds after the reports: that of the last
/// arrival for it (a later loss keeps it), or what it held before when
/// nothing arrived for it.
pub open spec fn latest_data(m: MessageView, reports: Seq<Report>, i: int) -> Option<Seq<u8>>
    decreases reports.len(),
{
    if reports.len() == 0 {
        m.fragments[i].data
    } else {
        match reports.last() {
            Report::Arrival { index, data, .. } => if index == i {
                Some(data)
            } else {
                latest_data(m, reports.drop_last(), i)
            },
            Report::Loss { .. } => latest_data(m, reports.drop_last(), i),
        }
    }
}

/// The status of fragment `i` after the reports: complete if the last report
/// on it was an arrival, missing if it was a loss, as before if there was
/// none.
pub open spec fn latest_status(m: MessageView, reports: Seq<Report>, i: int) -> FragmentStatus
    decreases reports.len(),
{
    if reports.len() == 0 {
        m.fragments[i].status
    } else if reports.last().fragment() == i {
        match reports.last() {
            Report::Arrival { .. } => FragmentStatus::Complete,
            Report::Loss { .. } => FragmentStatus::Missing,
        }
    } else {
        latest_status(m, reports.drop_last(), i)
    }
}

/// The latest data of the first `n` fragments, joined in index order.
pub open spec fn joined_latest(m: MessageView, reports: Seq<Report>, n: nat) -> Seq<u8>
    decreases n,
{
    if n == 0 {
        Seq::empty()
    } else {
        joined_latest(m, reports, (n - 1) as nat) + match latest_data(m, reports, n - 1) {
            Some(d) => d,
            None => Seq::empty(),
        }
    }
}

proof fn lemma_joined_latest(fs: Seq<FragmentView>, m: MessageView, reports: Seq<Report>, n: nat)
    requires
        n <= fs.len(),
        forall|i: int| 0 <= i < n ==> #[trigger] fs[i].data == latest_data(m, reports, i),
    ensures
        joined_data(fs.take(n as int)) == joined_latest(m, reports, n),
    decreases n,
{
    if n > 0 {
        lemma_joined_latest(fs, m, reports, (n - 1) as nat);
        assert(fs.take(n as int).drop_last() =~= fs.take(n - 1));
        assert(fs[n - 1].data == latest_data(m, reports, n - 1));
    }
}

/// What a reader gets back of what was written: after any reports, arrivals
/// and losses in any order, each fragment holds the data of the last arrival
/// for it and has the status its last report gave it; a fragment with no
/// report is as it was. The message is complete exactly when every
/// fragment's latest status is complete, and its reassembly then gives back
/// the latest data of each fragment, joined in index order.
pub proof fn law_reports_are_kept(m: MessageView, reports: Seq<Report>)
    requires
        m.wf(),
        forall|k: int| 0 <= k < reports.len() ==> #[trigger] reports[k].fragment() < m.total_fragments,
    ensures
        after_reports(m, reports).wf(),
        after_reports(m, reports).total_fragments == m.total_fragments,
        forall|i: int| 0 <= i < m.total_fragments ==> {
            &&& #[trigger] after_reports(m, reports).fragments[i].data == latest_data(m, reports, i)
            &&& after_reports(m, reports).fragments[i].status == latest_status(m, reports, i)
        },
        all_complete(after_reports(m, reports).fragments) <==> forall|i: int|
            0 <= i < m.total_fragments ==> #[trigger] latest_status(m, reports, i) == FragmentStatus::Complete,
        joined_data(after_reports(m, reports).fragments) == joined_latest(m, reports, m.total_fragments as nat),
    decreases reports.len(),
{
    let after = after_reports(m, reports);
    if reports.len() > 0 {
        let rest = reports.drop_last();
        assert forall|k: int| 0 <= k < rest.len() implies #[trigger] rest[k].fragment() < m.total_fragments by {
            assert(reports[k].fragment() < m.total_fragments);
        }
        law_reports_are_kept(m, rest);
        assert(reports[reports.len() - 1].fragment() < m.total_fragments);
        let before = after_reports(m, rest);
        assert forall|i: int| 0 <= i < m.total_fragments implies {
            &&& #[trigger] after.fragments[i].data == latest_data(m, reports, i)
            &&& after.fragments[i].status == latest_status(m, reports, i)
        } by {
            assert(before.fragments[i].data == latest_data(m, rest, i));
        }
    }
    assert forall|i: int| 0 <= i < m.total_fragments implies {
        &&& #[trigger] after.fragments[i].data == latest_data(m, reports, i)
        &&& after.fragments[i].status == latest_status(m, reports, i)
    } by {
        if reports.len() > 0 {
            assert(after.fragments[i].data == latest_data(m, reports, i));
        }
    }
    if all_complete(after.fragments) {
        assert forall|i: int| 0 <= i < m.total_fragments implies #[trigger] latest_status(m, reports, i)
            == FragmentStatus::Complete by {
            assert(after.fragments[i].data == latest_data(m, reports, i));
        }
    }
    if forall|i: int| 0 <= i < m.total_fragments ==> #[trigger] latest_status(m, reports, i) == FragmentStatus::Complete {
        assert forall|i: int| 0 <= i < after.fragments.len() implies #[trigger] after.fragments[i].status
            == FragmentStatus::Complete by {
            assert(after.fragments[i].data == latest_data(m, reports, i));
            assert(latest_status(m, reports, i) == FragmentStatus::Complete);
        }
    }
    lemma_joined_latest(after.fragments, m, reports, m.total_fragments as nat);
    assert(after.fragments.take(m.total_fragments as int) =~= after.fragments);
}

/// Once a message has become complete it stays recorded as completed, at
/// the time it first did; a later report of a missing fragment makes it
/// incomplete again without clearing that time.
pub proof fn law_completion_is_kept(m: MessageView, index: int, data: Seq<u8>, now: Duration)
    requires
        m.wf(),
        0 <= index < m.total_fragments,
        m.completed_at is Some,
    ensures
        m.after_complete(index, data, now).completed_at is Some,
        m.after_missing(index, now).completed_at == m.completed_at,
{
}

/// A message expires after `elapsed` exactly when its status is not
/// complete and `elapsed` exceeds its time to live; a complete message never
/// expires.
pub proof fn law_expiry_follows_status(m: MessageView, elapsed: Duration)
    ensures
        m.expired_after(elapsed) <==> (aggregate_status(m.fragments) != FragmentStatus::Complete
            && elapsed.nanos > m.ttl.nanos),
{
}

/// Reporting a fragment missing changes nothing of the message but that
/// fragment's status, now missing, and its update time, now `now`: the
/// fragment keeps its position and whatever data it held, the other
/// fragments stay as they were, and the message keeps its id, size,
/// completion time and time to live.
pub proof fn law_missing_keeps_data(m: MessageView, index: int, now: Duration)
    requires
        m.wf(),
        0 <= index < m.total_fragments,
    ensures
        m.after_missing(index, now).wf(),
        m.after_missing(index, now).message_id == m.message_id,
        m.after_missing(index, now).total_fragments == m.total_fragments,
        m.after_missing(index, now).completed_at == m.completed_at,
        m.after_missing(index, now).ttl == m.ttl,
        m.after_missing(index, now).fragments.len() == m.fragments.len(),
        m.after_missing(index, now).fragments[index].status == FragmentStatus::Missing,
        m.after_missing(index, now).fragments[index].last_updated == now,
        m.after_missing(index, now).fragments[index].index == m.fragments[index].index,
        m.after_missing(index, now).fragments[index].data == m.fragments[index].data,
        forall|j: int| 0 <= j < m.total_fragments && j != index ==> #[trigger] m.after_missing(index, now).fragments[j]
            == m.fragments[j],
        aggregate_status(m.after_missing(index, now).fragments) == FragmentStatus::Missing,
{
    let fs = m.after_missing(index, now).fragments;
    assert(fs[index].status == FragmentStatus::Missing);
}

/// An arrival changes nothing of the message but that fragment, now
/// complete with the data and updated at `now`, and, when it was the last
/// one missing, the completion time, now `now`: the message keeps its id,
/// size and time to live, and the other fragments stay as they were.
pub proof fn law_arrival_changes_only_its_fragment(m: MessageView, index: int, data: Seq<u8>, now: Duration)
    requires
        m.wf(),
        0 <= index < m.total_fragments,
    ensures
        m.after_complete(index, data, now).wf(),
        m.after_complete(index, data, now).message_id == m.message_id,
        m.after_complete(index, data, now).total_fragments == m.total_fragments,
        m.after_complete(index, data, now).ttl == m.ttl,
        m.after_complete(index, data, now).fragments.len() == m.fragments.len(),
        m.after_complete(index, data, now).fragments[index].status == FragmentStatus::Complete,
        m.after_complete(index, data, now).fragments[index].data == Some(data),
        m.after_complete(index, data, now).fragments[index].last_updated == now,
        m.after_complete(index, data, now).fragments[index].index == m.fragments[index].index,
        forall|j: int| 0 <= j < m.total_fragments && j != index ==> #[trigger] m.after_complete(index, data, now).fragments[j]
            == m.fragments[j],
        m.after_complete(index, data, now).completed_at == m.completed_at || m.after_complete(index, data, now).completed_at
            == Some(now),
        (forall|j: int| 0 <= j < m.total_fragments && j != index ==> #[trigger] m.fragments[j].status
            == FragmentStatus::Complete) ==> m.after_complete(index, data, now).completed_at == Some(now),
{
    let after = m.after_complete(index, data, now);
    if forall|j: int| 0 <= j < m.total_fragments && j != index ==> #[trigger] m.fragments[j].status
        == FragmentStatus::Complete {
        assert forall|j: int| 0 <= j < after.fragments.len() implies #[trigger] after.fragments[j].status
            == FragmentStatus::Complete by {
            if j != index {
                assert(m.fragments[j].status == FragmentStatus::Complete);
            }
        }
    }
}

/// Every record is of a message either finished or given up, so the
/// statistics' total is the sum of the two counts.
pub proof fn law_stats_partition(records: Seq<ReassemblyRecord>)
    ensures
        completed_count(records) + expired_count(records) == records.len(),
    decreases records.len(),
{
    if records.len() > 0 {
        law_stats_partition(records.drop_last());
    }
}

/// A message can be finalized exactly when its ternary status is complete.
pub proof fn law_finalize_matches_status(b: BufferView, message_id: u64)
    ensures
        (b.messages.contains_key(message_id) && all_complete(b.messages[message_id].fragments)) <==> (
        b.messages.contains_key(message_id) && aggregate_status(b.messages[message_id].fragments)
            == FragmentStatus::Complete),
{
}

/// No reading of `readings` finds its message held in `b` and past its
/// time to live.
pub open spec fn none_expire(b: BufferView, readings: Seq<(u64, Duration)>) -> bool {
    forall|k: int|
        0 <= k < readings.len() && b.messages.contains_key(#[trigger] readings[k].0) ==> !b.messages[readings[k].0].expired_after(
            readings[k].1,
        )
}

proof fn lemma_fold_leaves_none_expiring(b: BufferView, readings: Seq<(u64, Duration)>)
    ensures
        none_expire(expire_fold(b, readings).0, readings),
        forall|id: u64| #[trigger] expire_fold(b, readings).0.messages.contains_key(id) ==> b.messages.contains_key(id)
            && expire_fold(b, readings).0.messages[id] == b.messages[id],
    decreases readings.len(),
{
    if readings.len() > 0 {
        let rest = readings.drop_last();
        lemma_fold_leaves_none_expiring(b, rest);
        let prev = expire_fold(b, rest).0;
        let cur = expire_fold(b, readings).0;
        assert forall|k: int|
            0 <= k < readings.len() && cur.messages.contains_key(#[trigger] readings[k].0) implies !cur.messages[readings[k].0].expired_after(
            readings[k].1) by {
            if k < rest.len() {
                assert(rest[k] == readings[k]);
                assert(prev.messages.contains_key(rest[k].0));
            }
        }
    }
}

proof fn lemma_fold_without_expiry(b: BufferView, readings: Seq<(u64, Duration)>)
    requires
        none_expire(b, readings),
    ensures
        expire_fold(b, readings) == (b, Seq::<u64>::empty()),
    decreases readings.len(),
{
    if readings.len() > 0 {
        let rest = readings.drop_last();
        assert forall|k: int|
            0 <= k < rest.len() && b.messages.contains_key(#[trigger] rest[k].0) implies !b.messages[rest[k].0].expired_after(
            rest[k].1) by {
            assert(readings[k] == rest[k]);
        }
        lemma_fold_without_expiry(b, rest);
        assert(readings[readings.len() - 1] == readings.last());
    }
}

/// Expiring a second time with the same readings changes nothing and gives
/// up nothing: what was not past its time to live at its readings the first
/// time is not at the same readings the second time.
pub proof fn law_expire_is_idempotent(b: BufferView, readings: Seq<(u64, Duration)>)
    ensures
        expire_fold(expire_fold(b, readings).0, readings) == (expire_fold(b, readings).0, Seq::<u64>::empty()),
{
    lemma_fold_leaves_none_expiring(b, readings);
    lemma_fold_without_expiry(expire_fold(b, readings).0, readings);
}

/// A message is given up by expiry only at a reading past its time to
/// live: a message held whose every reading is within its time to live stays
/// held, unchanged, and is not among the ids given up.
pub proof fn law_expire_keeps_messages_within_ttl(b: BufferView, readings: Seq<(u64, Duration)>, id: u64)
    requires
        b.messages.contains_key(id),
        forall|k: int| 0 <= k < readings.len() && #[trigger] readings[k].0 == id ==> readings[k].1.nanos
            <= b.messages[id].ttl.nanos,
    ensures
        expire_fold(b, readings).0.messages.contains_key(id),
        expire_fold(b, readings).0.messages[id] == b.messages[id],
        !expire_fold(b, readings).1.contains(id),
    decreases readings.len(),
{
    if readings.len() > 0 {
        let rest = readings.drop_last();
        assert forall|k: int| 0 <= k < rest.len() && #[trigger] rest[k].0 == id implies rest[k].1.nanos
            <= b.messages[id].ttl.nanos by {
            assert(readings[k] == rest[k]);
        }
        law_expire_keeps_messages_within_ttl(b, rest, id);
        assert(readings[readings.len() - 1] == readings.last());
        let prev = expire_fold(b, rest);
        let cur = expire_fold(b, readings);
        if cur.1.contains(id) {
            if cur.1 != prev.1 {
                let k = choose|k: int| 0 <= k < cur.1.len() && cur.1[k] == id;
                if k < prev.1.len() {
                    assert(prev.1[k] == id);
                }
            }
        }
    }
}

/// The reassembly times add up record by record: appending a record adds
/// its whole reassembly time when it is of a finished message, and nothing
/// otherwise, whatever the size of the message.
pub proof fn law_time_total_accumulates(records: Seq<ReassemblyRecord>, r: ReassemblyRecord)
    ensures
        completed_time_total(Seq::<ReassemblyRecord>::empty()) == 0,
        completed_time_total(records.push(r)) == completed_time_total(records) + if r.completed {
            r.reassembly_time.nanos as int
        } else {
            0
        },
        completed_count(records.push(r)) == completed_count(records) + if r.completed {
            1int
        } else {
            0
        },
{
    assert(records.push(r).drop_last() =~= records);
}

/// When every finished message took the same time `t`, the reassembly
/// times of `c` finished messages add up to `c * t`, so the average that the
/// statistics report is exactly `t`; in particular, with a single finished
/// message, its own reassembly time.
pub proof fn law_average_of_equal_times(records: Seq<ReassemblyRecord>, t: Duration)
    requires
        forall|k: int| 0 <= k < records.len() && #[trigger] records[k].completed ==> records[k].reassembly_time == t,
    ensures
        completed_time_total(records) == completed_count(records) * t.nanos,
        completed_count(records) > 0 ==> completed_time_total(records) / completed_count(records) == t.nanos,
    decreases records.len(),
{
    if records.len() > 0 {
        let rest = records.drop_last();
        assert forall|k: int| 0 <= k < rest.len() && #[trigger] rest[k].completed implies rest[k].reassembly_time
            == t by {
            assert(records[k] == rest[k]);
        }
        law_average_of_equal_times(rest, t);
        assert(records[records.len() - 1] == records.last());
        let c = completed_count(rest);
        assert((c + 1) * t.nanos == c * t.nanos + t.nanos) by (nonlinear_arith);
    }
    let c = completed_count(records);
    if c > 0 {
        let total = completed_time_total(records);
        assert(c * t.nanos == t.nanos * c) by (nonlinear_arith);
        vstd::arithmetic::div_mod::lemma_fundamental_div_mod_converse(total as int, c as int, t.nanos as int, 0);
    }
}

} // verus!
