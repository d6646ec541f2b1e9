//! Fragments, their ternary status, and what is said of a sequence of them.

use vstd::prelude::*;
use crate::time::Duration;

verus! {

/// Ternary fragment status.
#[derive(Debug, Clone, Copy, PartialEq, Eq, Structural)]
pub enum FragmentStatus {
    /// Fragment data has been received and verified (+1).
    Complete,
    /// Fragment has not been seen yet; still waiting (0).
    Pending,
    /// Fragment is confirmed missing, e.g. by a negative ACK or a timeout (-1).
    Missing,
}

/// The ternary value that stands for a status.
pub open spec fn ternary_value(s: FragmentStatus) -> int {
    match s {
        FragmentStatus::Complete => 1,
        FragmentStatus::Pending => 0,
        FragmentStatus::Missing => -1,
    }
}

impl FragmentStatus {
    /// The status on the ternary scale: +1 complete, 0 pending, -1 missing.
    pub fn value(&self) -> (v: i8)
        ensures
            v == ternary_value(*self),
    {
        match self {
            FragmentStatus::Complete => 1,
            FragmentStatus::Pending => 0,
            FragmentStatus::Missing => -1,
        }
    }
}

/// A single fragment within a message buffer.
#[derive(Debug, Clone)]
pub struct Fragment {
    pub index: usize,
    pub status: FragmentStatus,
    pub data: Option<Vec<u8>>,
    /// When the fragment last changed, measured from the creation of its message.
    pub last_updated: Duration,
}

/// What a fragment holds, with its data as a sequence of bytes.
pub struct FragmentView {
    pub index: usize,
    pub status: FragmentStatus,
    pub data: Option<Seq<u8>>,
    pub last_updated: Duration,
}

impl View for Fragment {
    type V = FragmentView;

    open spec fn view(&self) -> FragmentView {
        FragmentView {
            index: self.index,
            status: self.status,
            data: match self.data {
                Some(d) => Some(d@),
                None => None,
            },
            last_updated: self.last_updated,
        }
    }
}

/// Tracks forward-progress information for partial reassembly.
#[derive(Debug, Clone, Copy, Default)]
pub struct Progress {
    /// Length of the longest prefix of complete fragments (front-fill progress).
    pub contiguous_front: usize,
    /// Total complete fragments.
    pub complete_count: usize,
    /// Total pending fragments.
    pub pending_count: usize,
    /// Total missing fragments.
    pub missing_count: usize,
}

/// Every fragment is complete (true of no fragments at all).
pub open spec fn all_complete(fs: Seq<FragmentView>) -> bool {
    forall|i: int| 0 <= i < fs.len() ==> #[trigger] fs[i].status == FragmentStatus::Complete
}

/// Some fragment has status `s`.
pub open spec fn some_with(fs: Seq<FragmentView>, s: FragmentStatus) -> bool {
    exists|i: int| 0 <= i < fs.len() && #[trigger] fs[i].status == s
}

/// The message-level status: complete when every fragment is, missing when
/// some fragment is missing, pending otherwise.
pub open spec fn aggregate_status(fs: Seq<FragmentView>) -> FragmentStatus {
    if all_complete(fs) {
        FragmentStatus::Complete
    } else if some_with(fs, FragmentStatus::Missing) {
        FragmentStatus::Missing
    } else {
        FragmentStatus::Pending
    }
}

/// The recorded indices of the fragments with status `s`, in order.
pub open spec fn indices_with(fs: Seq<FragmentView>, s: FragmentStatus) -> Seq<usize>
    decreases fs.len(),
{
    if fs.len() == 0 {
        Seq::empty()
    } else {
        let rest = indices_with(fs.drop_last(), s);
        if fs.last().status == s {
            rest.push(fs.last().index)
        } else {
            rest
        }
    }
}

/// How many fragments have status `s`.
pub open spec fn count_with(fs: Seq<FragmentView>, s: FragmentStatus) -> nat {
    indices_with(fs, s).len()
}

/// `k` is the length of the longest prefix of complete fragments.
pub open spec fn is_complete_front(fs: Seq<FragmentView>, k: int) -> bool {
    &&& 0 <= k <= fs.len()
    &&& forall|i: int| 0 <= i < k ==> #[trigger] fs[i].status == FragmentStatus::Complete
    &&& k < fs.len() ==> fs[k].status != FragmentStatus::Complete
}

/// The front-fill of a prefix of `k` complete fragments: one past the
/// recorded index of the last of them, or 0 when the prefix is empty.
pub open spec fn front_fill(fs: Seq<FragmentView>, k: int) -> int {
    if k == 0 {
        0
    } else {
        fs[k - 1].index + 1
    }
}

/// The recorded index of every complete fragment has a successor in `usize`.
pub open spec fn complete_indices_bounded(fs: Seq<FragmentView>) -> bool {
    forall|i: int|
        0 <= i < fs.len() && #[trigger] fs[i].status == FragmentStatus::Complete ==> fs[i].index < usize::MAX
}

/// Every complete fragment holds data.
pub open spec fn complete_hold_data(fs: Seq<FragmentView>) -> bool {
    forall|i: int| 0 <= i < fs.len() && #[trigger] fs[i].status == FragmentStatus::Complete ==> fs[i].data is Some
}

/// The data of the fragments, joined in order (a fragment without data adds
/// nothing).
pub open spec fn joined_data(fs: Seq<FragmentView>) -> Seq<u8>
    decreases fs.len(),
{
    if fs.len() == 0 {
        Seq::empty()
    } else {
        joined_data(fs.drop_last()) + match fs.last().data {
            Some(d) => d,
            None => Seq::empty(),
        }
    }
}

/// At most one index per fragment is listed.
pub proof fn lemma_indices_with_len(fs: Seq<FragmentView>, s: FragmentStatus)
    ensures
        indices_with(fs, s).len() <= fs.len(),
    decreases fs.len(),
{
    if fs.len() > 0 {
        lemma_indices_with_len(fs.drop_last(), s);
    }
}

} // verus!
