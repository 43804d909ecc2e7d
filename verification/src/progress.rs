//! Progress of a transfer in bytes.

use vstd::prelude::*;

verus! {

/// How many bytes of how many were transferred.
#[derive(Debug, Clone, Copy, PartialEq, Eq, Structural)]
pub struct ProgressState {
    pub total_bytes: u64,
    pub transferred_bytes: u64,
}

/// What whoever follows the progress is told.
#[derive(Debug, Clone, Copy, PartialEq, Eq, Structural)]
pub struct Update {
    pub transferred: u64,
    pub total: u64,
}

/// What a new total means for what is shown.
#[derive(Debug, Clone, Copy, PartialEq, Eq, Structural)]
pub enum TotalChange {
    /// It is the total known before.
    Unchanged,
    /// It is the first total known: start to show progress.
    Reveal,
    /// It is another total.
    Changed,
}

impl ProgressState {
    /// What is to be told of the progress.
    pub open spec fn told(self) -> Update {
        Update { transferred: self.transferred_bytes, total: self.total_bytes }
    }

    /// The progress after more bytes.
    pub open spec fn added(self, bytes: u64) -> ProgressState {
        ProgressState { transferred_bytes: (self.transferred_bytes + bytes) as u64, ..self }
    }

    /// The progress after each of some numbers of bytes.
    pub open spec fn all_added(self, counts: Seq<u64>) -> ProgressState
        decreases counts.len(),
    {
        if counts.len() == 0 {
            self
        } else {
            self.all_added(counts.drop_last()).added(counts.last())
        }
    }

    /// What a new total means for what is shown.
    pub open spec fn change_to(self, total_bytes: u64) -> TotalChange {
        if self.total_bytes == total_bytes {
            TotalChange::Unchanged
        } else if self.total_bytes == 0 {
            TotalChange::Reveal
        } else {
            TotalChange::Changed
        }
    }

    /// Whether all bytes were transferred.
    pub open spec fn all_there(self) -> bool {
        self.transferred_bytes >= self.total_bytes
    }

    /// Nothing of `total_bytes` was transferred; a total of 0 is not known yet.
    pub fn new(total_bytes: u64) -> (r: Self)
        ensures
            r == (ProgressState { total_bytes, transferred_bytes: 0 }),
    {
        ProgressState { total_bytes, transferred_bytes: 0 }
    }

    /// More bytes were transferred. Returns what to tell.
    pub fn add_bytes(&mut self, bytes: u64) -> (r: Update)
        requires
            old(self).transferred_bytes + bytes <= u64::MAX,
        ensures
            *final(self) == old(self).added(bytes),
            r == final(self).told(),
    {
        self.transferred_bytes = self.transferred_bytes + bytes;
        self.update()
    }

    /// The total is known. Returns what it means for what is shown, and what to
    /// tell, also where the total is the one known before.
    pub fn set_total_bytes(&mut self, total_bytes: u64) -> (r: (TotalChange, Update))
        ensures
            *final(self) == (ProgressState { total_bytes, ..*old(self) }),
            r.1 == final(self).told(),
            r.0 == old(self).change_to(total_bytes),
    {
        let change: TotalChange = if self.total_bytes == total_bytes {
            TotalChange::Unchanged
        } else if self.total_bytes == 0 {
            TotalChange::Reveal
        } else {
            TotalChange::Changed
        };
        self.total_bytes = total_bytes;
        (change, self.update())
    }

    /// The transfer is over. Returns what to tell.
    pub fn finish(&self) -> (r: Update)
        ensures
            r == self.told(),
    {
        self.update()
    }

    fn update(&self) -> (r: Update)
        ensures
            r == self.told(),
    {
        Update { transferred: self.transferred_bytes, total: self.total_bytes }
    }

    pub fn total_bytes(&self) -> (r: u64)
        ensures
            r == self.total_bytes,
    {
        self.total_bytes
    }

    pub fn transferred_bytes(&self) -> (r: u64)
        ensures
            r == self.transferred_bytes,
    {
        self.transferred_bytes
    }

    /// Whether all bytes were transferred.
    pub fn is_complete(&self) -> (r: bool)
        ensures
            r == self.all_there(),
    {
        self.transferred_bytes >= self.total_bytes
    }
}

/// The sum of some numbers.
pub open spec fn sum_of(counts: Seq<u64>) -> nat
    decreases counts.len(),
{
    if counts.len() == 0 {
        0
    } else {
        counts[0] as nat + sum_of(counts.skip(1))
    }
}

proof fn lemma_sum_last(counts: Seq<u64>)
    requires
        counts.len() > 0,
    ensures
        sum_of(counts) == sum_of(counts.drop_last()) + counts.last(),
    decreases counts.len(),
{
    if counts.len() == 1 {
        assert(counts.skip(1) =~= Seq::empty());
        assert(counts.drop_last() =~= Seq::empty());
    } else {
        lemma_sum_last(counts.skip(1));
        assert(counts.skip(1).drop_last() =~= counts.drop_last().skip(1));
    }
}

/// What is told is what was transferred: all the bytes that were added, however
/// they came, of the total that is known; and it is all there once that is as
/// many.
pub proof fn law_progress_adds_up(state: ProgressState, counts: Seq<u64>)
    requires
        state.transferred_bytes + sum_of(counts) <= u64::MAX,
    ensures
        state.all_added(counts).told().transferred == state.transferred_bytes + sum_of(counts),
        state.all_added(counts).told().total == state.total_bytes,
        state.all_added(counts).all_there() <==> state.transferred_bytes + sum_of(counts)
            >= state.total_bytes,
    decreases counts.len(),
{
    if counts.len() > 0 {
        lemma_sum_last(counts);
        law_progress_adds_up(state, counts.drop_last());
    }
}

/// Progress begins to be shown with the first total that is known, and a total
/// that is known already changes nothing.
pub proof fn law_first_total_reveals_progress(state: ProgressState, total: u64)
    ensures
        state.change_to(total) is Reveal <==> state.total_bytes == 0 && total > 0,
        state.change_to(total) is Unchanged <==> total == state.total_bytes,
        state.change_to(total) is Changed <==> total != state.total_bytes && state.total_bytes > 0,
{
}

} // verus!
