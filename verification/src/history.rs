//! The record of past transfers.

use vstd::prelude::*;
use vstd::string::*;

use crate::clock::now_secs;
use crate::text::{bytes_eq, decimal, lowercase_of, push_decimal, str_eq, string_copy, to_lowercase};

verus! {

/// Direction of a transfer.
#[derive(Debug, Clone, Copy, PartialEq, Eq, Structural)]
pub enum TransferDirection {
    Send,
    Receive,
}

/// How a transfer ended.
#[derive(Debug, Clone, Copy, PartialEq, Eq, Structural)]
pub enum TransferStatus {
    Completed,
    Interrupted,
    Failed,
}

/// One transfer.
#[derive(Debug, Clone)]
pub struct TransferRecord {
    pub transfer_id: [u8; 16],
    /// Seconds since the epoch.
    pub start_time: u64,
    /// Seconds since the epoch.
    pub end_time: u64,
    pub direction: TransferDirection,
    pub peer_address: String,
    pub files: Vec<String>,
    pub bytes_transferred: u64,
    pub duration_secs: u64,
    pub status: TransferStatus,
}

/// Seconds from `start` to `now`; 0 where the clock was set back.
pub open spec fn elapsed(start: u64, now: u64) -> u64 {
    if now > start {
        (now - start) as u64
    } else {
        0
    }
}

impl TransferRecord {
    /// The record of a transfer that ended.
    pub open spec fn ended(
        self,
        files: Vec<String>,
        bytes_transferred: u64,
        status: TransferStatus,
        now: u64,
    ) -> TransferRecord {
        TransferRecord {
            end_time: now,
            duration_secs: elapsed(self.start_time, now),
            files,
            bytes_transferred,
            status,
            ..self
        }
    }

    /// A transfer that starts at `now`; until it ends it counts as interrupted.
    pub fn new_at(
        transfer_id: [u8; 16],
        direction: TransferDirection,
        peer_address: String,
        now: u64,
    ) -> (r: Self)
        ensures
            r.transfer_id == transfer_id,
            r.start_time == now,
            r.end_time == now,
            r.direction == direction,
            r.peer_address == peer_address,
            r.files@ == Seq::<String>::empty(),
            r.bytes_transferred == 0,
            r.duration_secs == 0,
            r.status == TransferStatus::Interrupted,
    {
        TransferRecord {
            transfer_id,
            start_time: now,
            end_time: now,
            direction,
            peer_address,
            files: Vec::new(),
            bytes_transferred: 0,
            duration_secs: 0,
            status: TransferStatus::Interrupted,
        }
    }

    /// A transfer that starts now.
    pub fn new(transfer_id: [u8; 16], direction: TransferDirection, peer_address: String) -> (r: Self)
        ensures
            r.transfer_id == transfer_id,
            r.end_time == r.start_time,
            r.direction == direction,
            r.peer_address == peer_address,
            r.files@ == Seq::<String>::empty(),
            r.bytes_transferred == 0,
            r.duration_secs == 0,
            r.status == TransferStatus::Interrupted,
    {
        Self::new_at(transfer_id, direction, peer_address, now_secs())
    }

    /// The transfer ends at `now` with this status.
    pub fn end_at(
        &mut self,
        files: Vec<String>,
        bytes_transferred: u64,
        status: TransferStatus,
        now: u64,
    )
        ensures
            *final(self) == old(self).ended(files, bytes_transferred, status, now),
    {
        self.end_time = now;
        self.duration_secs = now.saturating_sub(self.start_time);
        self.files = files;
        self.bytes_transferred = bytes_transferred;
        self.status = status;
    }

    /// The transfer is complete.
    pub fn complete(&mut self, files: Vec<String>, bytes_transferred: u64)
        ensures
            *final(self) == old(self).ended(
                files,
                bytes_transferred,
                TransferStatus::Completed,
                final(self).end_time,
            ),
    {
        self.end_at(files, bytes_transferred, TransferStatus::Completed, now_secs());
    }

    /// The transfer was interrupted.
    pub fn interrupt(&mut self, files: Vec<String>, bytes_transferred: u64)
        ensures
            *final(self) == old(self).ended(
                files,
                bytes_transferred,
                TransferStatus::Interrupted,
                final(self).end_time,
            ),
    {
        self.end_at(files, bytes_transferred, TransferStatus::Interrupted, now_secs());
    }

    /// The transfer failed at `now`. The error is kept at the end of the list
    /// of files.
    pub fn fail_at(&mut self, error: String, now: u64)
        ensures
            failed_at(*old(self), error@, now, *final(self)),
    {
        self.end_time = now;
        self.duration_secs = now.saturating_sub(self.start_time);
        self.status = TransferStatus::Failed;
        self.files.push("Error: ".to_owned().concat(error.as_str()));
        assert(self.files@.drop_last() =~= old(self).files@);
    }

    /// The transfer failed.
    pub fn fail(&mut self, error: String)
        ensures
            final(self).transfer_id == old(self).transfer_id,
            final(self).start_time == old(self).start_time,
            final(self).direction == old(self).direction,
            final(self).peer_address == old(self).peer_address,
            final(self).bytes_transferred == old(self).bytes_transferred,
            final(self).duration_secs == elapsed(old(self).start_time, final(self).end_time),
            final(self).status == TransferStatus::Failed,
            final(self).files@.len() == old(self).files@.len() + 1,
            final(self).files@.drop_last() == old(self).files@,
            final(self).files@.last()@ == "Error: "@ + error@,
    {
        self.fail_at(error, now_secs());
    }
}

/// `after` is the record of a transfer that failed at `now`.
pub open spec fn failed_at(
    before: TransferRecord,
    error: Seq<char>,
    now: u64,
    after: TransferRecord,
) -> bool {
    &&& after.transfer_id == before.transfer_id
    &&& after.start_time == before.start_time
    &&& after.end_time == now
    &&& after.direction == before.direction
    &&& after.peer_address == before.peer_address
    &&& after.bytes_transferred == before.bytes_transferred
    &&& after.duration_secs == elapsed(before.start_time, now)
    &&& after.status == TransferStatus::Failed
    &&& after.files@.len() == before.files@.len() + 1
    &&& after.files@.drop_last() == before.files@
    &&& after.files@.last()@ == "Error: "@ + error
}

/// Records without the references to them.
pub open spec fn values(list: Seq<&TransferRecord>) -> Seq<TransferRecord> {
    list.map_values(|r: &TransferRecord| *r)
}

/// The records of one direction, in order.
pub open spec fn of_direction(list: Seq<TransferRecord>, d: TransferDirection) -> Seq<TransferRecord>
    decreases list.len(),
{
    if list.len() == 0 {
        Seq::empty()
    } else {
        let rest = of_direction(list.drop_last(), d);
        if list.last().direction == d {
            rest.push(list.last())
        } else {
            rest
        }
    }
}

/// The records of one status, in order.
pub open spec fn of_status(list: Seq<TransferRecord>, s: TransferStatus) -> Seq<TransferRecord>
    decreases list.len(),
{
    if list.len() == 0 {
        Seq::empty()
    } else {
        let rest = of_status(list.drop_last(), s);
        if list.last().status == s {
            rest.push(list.last())
        } else {
            rest
        }
    }
}

/// The position of the first record of a transfer.
pub open spec fn position_of(list: Seq<TransferRecord>, id: Seq<u8>) -> Option<int>
    decreases list.len(),
{
    if list.len() == 0 {
        None
    } else {
        match position_of(list.drop_last(), id) {
            Some(i) => Some(i),
            None => if list.last().transfer_id@ == id {
                Some(list.len() - 1)
            } else {
                None
            },
        }
    }
}

/// A record put into a list that is sorted by start, latest first: behind all
/// that did not start earlier.
pub open spec fn put_newest(sorted: Seq<TransferRecord>, r: TransferRecord) -> Seq<TransferRecord>
    decreases sorted.len(),
{
    if sorted.len() == 0 || sorted.last().start_time >= r.start_time {
        sorted.push(r)
    } else {
        put_newest(sorted.drop_last(), r).push(sorted.last())
    }
}

/// The records sorted by start, latest first; those that started together stay
/// in order.
pub open spec fn newest_first(list: Seq<TransferRecord>) -> Seq<TransferRecord>
    decreases list.len(),
{
    if list.len() == 0 {
        Seq::empty()
    } else {
        put_newest(newest_first(list.drop_last()), list.last())
    }
}

/// No record starts after one that stands before it.
pub open spec fn is_newest_first(list: Seq<TransferRecord>) -> bool {
    forall|i: int, j: int|
        0 <= i < j < list.len() ==> (#[trigger] list[i]).start_time >= (#[trigger] list[j]).start_time
}

proof fn lemma_put_newest(sorted: Seq<TransferRecord>, r: TransferRecord)
    requires
        is_newest_first(sorted),
    ensures
        is_newest_first(put_newest(sorted, r)),
        put_newest(sorted, r).len() == sorted.len() + 1,
        put_newest(sorted, r).to_multiset() == sorted.to_multiset().insert(r),
        forall|i: int|
            0 <= i < put_newest(sorted, r).len() ==> (#[trigger] put_newest(sorted, r)[i]) == r
                || sorted.contains(put_newest(sorted, r)[i]),
    decreases sorted.len(),
{
    broadcast use vstd::seq_lib::group_to_multiset_ensures;

    if sorted.len() == 0 || sorted.last().start_time >= r.start_time {
        assert(sorted.push(r).to_multiset() =~= sorted.to_multiset().insert(r));
        assert forall|i: int, j: int| 0 <= i < j < sorted.push(r).len() implies (
        #[trigger] sorted.push(r)[i]).start_time >= (#[trigger] sorted.push(r)[j]).start_time by {
            if j == sorted.len() {
                if i < sorted.len() - 1 {
                    assert(sorted[i].start_time >= sorted[sorted.len() - 1].start_time);
                }
            }
        }
        assert forall|i: int| 0 <= i < put_newest(sorted, r).len() implies (
        #[trigger] put_newest(sorted, r)[i]) == r || sorted.contains(put_newest(sorted, r)[i]) by {
            if i < sorted.len() {
                assert(sorted[i] == put_newest(sorted, r)[i]);
            }
        }
    } else {
        let init = sorted.drop_last();
        let last = sorted.last();
        lemma_put_newest(init, r);
        let inner = put_newest(init, r);
        let out = inner.push(last);
        assert(out == put_newest(sorted, r));
        assert(init.push(last) =~= sorted);
        assert(out.to_multiset() =~= sorted.to_multiset().insert(r)) by {
            assert(out.to_multiset() =~= inner.to_multiset().insert(last));
            assert(sorted.to_multiset() =~= init.to_multiset().insert(last));
        }
        assert forall|i: int, j: int| 0 <= i < j < out.len() implies (#[trigger] out[i]).start_time
            >= (#[trigger] out[j]).start_time by {
            if j == out.len() - 1 {
                assert(inner[i] == r || init.contains(inner[i]));
                if inner[i] != r {
                    let k = choose|k: int| 0 <= k < init.len() && init[k] == inner[i];
                    assert(sorted[k] == init[k]);
                    assert(sorted[k].start_time >= sorted[sorted.len() - 1].start_time);
                }
            }
        }
        assert forall|i: int| 0 <= i < out.len() implies (#[trigger] out[i]) == r
            || sorted.contains(out[i]) by {
            if i < inner.len() {
                assert(inner[i] == r || init.contains(inner[i]));
                if inner[i] != r {
                    let k = choose|k: int| 0 <= k < init.len() && init[k] == inner[i];
                    assert(sorted[k] == out[i]);
                }
            } else {
                assert(sorted[sorted.len() - 1] == out[i]);
            }
        }
    }
}

/// Sorting leaves the same records, latest first.
pub proof fn law_newest_first_sorts(list: Seq<TransferRecord>)
    ensures
        is_newest_first(newest_first(list)),
        newest_first(list).len() == list.len(),
        newest_first(list).to_multiset() == list.to_multiset(),
    decreases list.len(),
{
    broadcast use vstd::seq_lib::group_to_multiset_ensures;

    if list.len() > 0 {
        law_newest_first_sorts(list.drop_last());
        lemma_put_newest(newest_first(list.drop_last()), list.last());
        assert(list.drop_last().push(list.last()) =~= list);
        assert(list.to_multiset() =~= list.drop_last().to_multiset().insert(list.last()));
    } else {
        assert(newest_first(list) =~= list);
    }
}

/// Which records to show.
pub struct HistoryFilter {
    pub direction: Option<TransferDirection>,
    pub completed: bool,
    pub failed: bool,
    pub limit: usize,
}

/// The records that a filter selects, latest first.
pub open spec fn selected(list: Seq<TransferRecord>, f: HistoryFilter) -> Seq<TransferRecord> {
    let by_direction = match f.direction {
        Some(d) => of_direction(list, d),
        None => list,
    };
    let by_status = if f.completed {
        of_status(by_direction, TransferStatus::Completed)
    } else if f.failed {
        of_status(by_direction, TransferStatus::Failed)
    } else {
        by_direction
    };
    first_of(newest_first(by_status), f.limit as nat)
}

/// The first `n` records, or all where there are fewer.
pub open spec fn first_of(list: Seq<TransferRecord>, n: nat) -> Seq<TransferRecord> {
    if n < list.len() {
        list.take(n as int)
    } else {
        list
    }
}

fn keep_direction<'a>(list: &Vec<&'a TransferRecord>, d: TransferDirection) -> (r: Vec<
    &'a TransferRecord,
>)
    ensures
        values(r@) == of_direction(values(list@), d),
{
    let mut out: Vec<&'a TransferRecord> = Vec::new();
    let mut i: usize = 0;
    assert(values(list@).take(0) =~= Seq::empty());
    assert(values(out@) =~= Seq::empty());
    while i < list.len()
        invariant
            i <= list@.len(),
            values(out@) == of_direction(values(list@).take(i as int), d),
        decreases list@.len() - i,
    {
        let ghost before = out@;
        let ghost t = values(list@).take(i + 1);
        assert(t.drop_last() =~= values(list@).take(i as int));
        assert(t.last() == *list@[i as int]);
        if list[i].direction == d {
            out.push(list[i]);
            assert(values(out@) =~= values(before).push(*list@[i as int]));
        }
        i += 1;
    }
    assert(values(list@).take(i as int) =~= values(list@));
    out
}

fn keep_status<'a>(list: &Vec<&'a TransferRecord>, s: TransferStatus) -> (r: Vec<
    &'a TransferRecord,
>)
    ensures
        values(r@) == of_status(values(list@), s),
{
    let mut out: Vec<&'a TransferRecord> = Vec::new();
    let mut i: usize = 0;
    assert(values(list@).take(0) =~= Seq::empty());
    assert(values(out@) =~= Seq::empty());
    while i < list.len()
        invariant
            i <= list@.len(),
            values(out@) == of_status(values(list@).take(i as int), s),
        decreases list@.len() - i,
    {
        let ghost before = out@;
        let ghost t = values(list@).take(i + 1);
        assert(t.drop_last() =~= values(list@).take(i as int));
        assert(t.last() == *list@[i as int]);
        if list[i].status == s {
            out.push(list[i]);
            assert(values(out@) =~= values(before).push(*list@[i as int]));
        }
        i += 1;
    }
    assert(values(list@).take(i as int) =~= values(list@));
    out
}

fn insert_newest<'a>(sorted: &mut Vec<&'a TransferRecord>, r: &'a TransferRecord)
    ensures
        values(final(sorted)@) == put_newest(values(old(sorted)@), *r),
{
    let mut i: usize = sorted.len();
    let ghost all = values(sorted@);
    assert(all.take(i as int) =~= all);
    assert(all.skip(i as int) =~= Seq::empty());
    assert(put_newest(all, *r) =~= put_newest(all.take(i as int), *r) + all.skip(i as int));
    while i > 0 && sorted[i - 1].start_time < r.start_time
        invariant
            i <= sorted@.len(),
            all == values(sorted@),
            put_newest(all, *r) == put_newest(all.take(i as int), *r) + all.skip(i as int),
        decreases i,
    {
        proof {
            let t = all.take(i as int);
            assert(t.last() == *sorted@[i - 1]);
            assert(t.drop_last() =~= all.take(i - 1));
            assert(put_newest(t, *r) == put_newest(all.take(i - 1), *r).push(all[i - 1]));
            assert(put_newest(all, *r) =~= put_newest(all.take(i - 1), *r) + all.skip(i - 1));
        }
        i -= 1;
    }
    proof {
        let t = all.take(i as int);
        if i > 0 {
            assert(t.last() == *sorted@[i - 1]);
        }
        assert(put_newest(t, *r) == t.push(*r));
    }
    sorted.insert(i, r);
    assert(values(sorted@) =~= all.take(i as int).push(*r) + all.skip(i as int));
}

fn sort_newest<'a>(list: &Vec<&'a TransferRecord>) -> (r: Vec<&'a TransferRecord>)
    ensures
        values(r@) == newest_first(values(list@)),
{
    let mut out: Vec<&'a TransferRecord> = Vec::new();
    let mut i: usize = 0;
    assert(values(list@).take(0) =~= Seq::empty());
    assert(values(out@) =~= Seq::empty());
    while i < list.len()
        invariant
            i <= list@.len(),
            values(out@) == newest_first(values(list@).take(i as int)),
        decreases list@.len() - i,
    {
        proof {
            let t = values(list@).take(i + 1);
            assert(t.drop_last() =~= values(list@).take(i as int));
            assert(t.last() == *list@[i as int]);
        }
        insert_newest(&mut out, list[i]);
        i += 1;
    }
    assert(values(list@).take(i as int) =~= values(list@));
    out
}

fn limit_to<'a>(list: Vec<&'a TransferRecord>, n: usize) -> (r: Vec<&'a TransferRecord>)
    ensures
        values(r@) == first_of(values(list@), n as nat),
{
    let mut list = list;
    let ghost all = values(list@);
    if n < list.len() {
        list.truncate(n);
        assert(values(list@) =~= all.take(n as int));
    }
    list
}

/// All transfers.
#[derive(Debug, Clone)]
pub struct TransferHistory {
    records: Vec<TransferRecord>,
}

impl View for TransferHistory {
    type V = Seq<TransferRecord>;

    closed spec fn view(&self) -> Seq<TransferRecord> {
        self.records@
    }
}

impl Default for TransferHistory {
    fn default() -> (r: Self)
        ensures
            r@ == Seq::<TransferRecord>::empty(),
    {
        TransferHistory::new()
    }
}

impl TransferHistory {
    /// No transfers.
    pub fn new() -> (r: Self)
        ensures
            r@ == Seq::<TransferRecord>::empty(),
    {
        TransferHistory { records: Vec::new() }
    }

    /// Adds a transfer at the end.
    pub fn add_record(&mut self, record: TransferRecord)
        ensures
            final(self)@ == old(self)@.push(record),
    {
        self.records.push(record);
    }

    /// All transfers in the order they were added.
    pub fn records(&self) -> (r: &[TransferRecord])
        ensures
            r@ == self@,
    {
        self.records.as_slice()
    }

    fn refs(&self) -> (r: Vec<&TransferRecord>)
        ensures
            values(r@) == self@,
    {
        let mut out: Vec<&TransferRecord> = Vec::new();
        let mut i: usize = 0;
        while i < self.records.len()
            invariant
                i <= self.records@.len(),
                out@.len() == i,
                forall|j: int| 0 <= j < i ==> *(#[trigger] out@[j]) == self.records@[j],
            decreases self.records@.len() - i,
        {
            out.push(&self.records[i]);
            i += 1;
        }
        assert(values(out@) =~= self@);
        out
    }

    /// The transfers of one direction.
    pub fn filter_by_direction(&self, direction: TransferDirection) -> (r: Vec<&TransferRecord>)
        ensures
            values(r@) == of_direction(self@, direction),
    {
        keep_direction(&self.refs(), direction)
    }

    /// The transfers with one status.
    pub fn filter_by_status(&self, status: TransferStatus) -> (r: Vec<&TransferRecord>)
        ensures
            values(r@) == of_status(self@, status),
    {
        keep_status(&self.refs(), status)
    }

    /// The first record of a transfer.
    pub fn get_by_id(&self, transfer_id: &[u8; 16]) -> (r: Option<&TransferRecord>)
        ensures
            match position_of(self@, transfer_id@) {
                Some(i) => 0 <= i < self@.len() && (r matches Some(record) && *record == self@[i]),
                None => r is None,
            },
    {
        let mut i: usize = 0;
        assert(self@.take(0) =~= Seq::empty());
        while i < self.records.len()
            invariant
                i <= self.records@.len(),
                position_of(self@.take(i as int), transfer_id@) is None,
            decreases self.records@.len() - i,
        {
            proof {
                assert(self@.take(i + 1).drop_last() =~= self@.take(i as int));
                assert(self@.take(i + 1).last() == self@[i as int]);
            }
            if bytes_eq(self.records[i].transfer_id.as_slice(), transfer_id.as_slice()) {
                proof {
                    lemma_position_stays(self@, transfer_id@, i + 1);
                }
                return Some(&self.records[i]);
            }
            i += 1;
        }
        assert(self@.take(i as int) =~= self@);
        None
    }

    /// The latest transfers, at most `limit`.
    pub fn recent(&self, limit: usize) -> (r: Vec<&TransferRecord>)
        ensures
            values(r@) == first_of(newest_first(self@), limit as nat),
    {
        limit_to(sort_newest(&self.refs()), limit)
    }

    /// The transfers that a filter selects, latest first.
    pub fn select(&self, filter: &HistoryFilter) -> (r: Vec<&TransferRecord>)
        ensures
            values(r@) == selected(self@, *filter),
    {
        let mut list: Vec<&TransferRecord> = self.refs();
        if let Some(d) = filter.direction {
            list = keep_direction(&list, d);
        }
        if filter.completed {
            list = keep_status(&list, TransferStatus::Completed);
        } else if filter.failed {
            list = keep_status(&list, TransferStatus::Failed);
        }
        limit_to(sort_newest(&list), filter.limit)
    }
}

proof fn lemma_position_stays(list: Seq<TransferRecord>, id: Seq<u8>, n: int)
    requires
        0 <= n <= list.len(),
        position_of(list.take(n), id) is Some,
    ensures
        position_of(list, id) == position_of(list.take(n), id),
    decreases list.len() - n,
{
    if n < list.len() {
        assert(list.take(n + 1).drop_last() =~= list.take(n));
        lemma_position_stays(list, id, n + 1);
    } else {
        assert(list.take(n) =~= list);
    }
}

/// The direction that a word in lower case stands for.
pub open spec fn direction_named(word: Seq<char>) -> Option<TransferDirection> {
    if word == "send"@ {
        Some(TransferDirection::Send)
    } else if word == "receive"@ || word == "recv"@ {
        Some(TransferDirection::Receive)
    } else {
        None
    }
}

/// Reads a direction from a word in lower case.
pub fn direction_from_lowercase(word: &str) -> (r: core::result::Result<TransferDirection, String>)
    ensures
        match direction_named(word@) {
            Some(d) => r == Ok::<TransferDirection, String>(d),
            None => r matches Err(m) && m@ == "Invalid direction. Use 'send' or 'receive'"@,
        },
{
    if str_eq(word, "send") {
        Ok(TransferDirection::Send)
    } else if str_eq(word, "receive") || str_eq(word, "recv") {
        Ok(TransferDirection::Receive)
    } else {
        Err("Invalid direction. Use 'send' or 'receive'".to_owned())
    }
}

/// Reads a direction, in upper or lower case.
pub fn parse_direction(word: &str) -> (r: core::result::Result<TransferDirection, String>)
    ensures
        match direction_named(lowercase_of(word@)) {
            Some(d) => r == Ok::<TransferDirection, String>(d),
            None => r matches Err(m) && m@ == "Invalid direction. Use 'send' or 'receive'"@,
        },
{
    direction_from_lowercase(to_lowercase(word).as_str())
}

/// The short name of a direction.
pub fn direction_label(d: TransferDirection) -> (r: &'static str)
    ensures
        r@ == (match d {
            TransferDirection::Send => "SEND"@,
            TransferDirection::Receive => "RECV"@,
        }),
{
    match d {
        TransferDirection::Send => "SEND",
        TransferDirection::Receive => "RECV",
    }
}

/// The short name of a status.
pub fn status_label(s: TransferStatus) -> (r: &'static str)
    ensures
        r@ == (match s {
            TransferStatus::Completed => "OK "@,
            TransferStatus::Interrupted => "INT"@,
            TransferStatus::Failed => "ERR"@,
        }),
{
    match s {
        TransferStatus::Completed => "OK ",
        TransferStatus::Interrupted => "INT",
        TransferStatus::Failed => "ERR",
    }
}

/// A path next to another: the same with a suffix.
pub fn sibling_path(path: &str, suffix: &str) -> (r: String)
    ensures
        r@ == path@ + suffix@,
{
    string_copy(path).concat(suffix)
}

/// Where a history file that cannot be read is moved to, so that nothing is
/// lost.
pub fn quarantine_path(path: &str, now: u64) -> (r: String)
    ensures
        r@ == path@ + ".corrupt-"@ + decimal(now as nat),
{
    let mut p: String = sibling_path(path, ".corrupt-");
    push_decimal(&mut p, now);
    p
}

/// What to do with the bytes of a history file.
#[derive(Debug, Clone, Copy, PartialEq, Eq, Structural)]
pub enum HistorySource {
    /// There is none yet, or it is empty: start anew.
    Fresh,
    /// Go on with what it holds.
    Loaded,
    /// It cannot be read: move it aside and start anew.
    Quarantine,
}

/// Decides what to start from: `len` is the length of the file where it
/// exists, `readable` whether it holds a history.
pub fn history_source(len: Option<usize>, readable: bool) -> (r: HistorySource)
    ensures
        r == (match len {
            None => HistorySource::Fresh,
            Some(n) => if n == 0 {
                HistorySource::Fresh
            } else if readable {
                HistorySource::Loaded
            } else {
                HistorySource::Quarantine
            },
        }),
{
    match len {
        None => HistorySource::Fresh,
        Some(n) => if n == 0 {
            HistorySource::Fresh
        } else if readable {
            HistorySource::Loaded
        } else {
            HistorySource::Quarantine
        },
    }
}

/// The records to store: those that a file of this length reads as, and a new
/// one.
pub open spec fn to_store(
    len: Option<nat>,
    stored: Option<Seq<TransferRecord>>,
    record: TransferRecord,
) -> Seq<TransferRecord> {
    (match (len, stored) {
        (Some(n), Some(list)) => if n > 0 {
            list
        } else {
            Seq::empty()
        },
        _ => Seq::empty(),
    }).push(record)
}

/// Whether a file of this length is to be moved aside: it has bytes, but does
/// not read as a history.
pub open spec fn to_move_aside(len: Option<nat>, stored: Option<Seq<TransferRecord>>) -> bool {
    len matches Some(n) && n > 0 && stored is None
}

/// The history to store once a transfer is recorded: what the file holds, where
/// it can be read, and the record behind it. `len` is the length of the file
/// where it exists, `stored` what it reads as. Also comes back whether the file
/// is to be moved aside first.
pub fn record_onto(
    len: Option<usize>,
    stored: Option<TransferHistory>,
    record: TransferRecord,
) -> (r: (TransferHistory, bool))
    ensures
        r.0@ == to_store(
            match len {
                Some(n) => Some(n as nat),
                None => None,
            },
            match stored {
                Some(history) => Some(history@),
                None => None,
            },
            record,
        ),
        r.1 == to_move_aside(
            match len {
                Some(n) => Some(n as nat),
                None => None,
            },
            match stored {
                Some(history) => Some(history@),
                None => None,
            },
        ),
{
    let source: HistorySource = history_source(len, stored.is_some());
    let mut history: TransferHistory = match (source, stored) {
        (HistorySource::Loaded, Some(history)) => history,
        _ => TransferHistory::new(),
    };
    history.add_record(record);
    (history, source == HistorySource::Quarantine)
}

/// A history file: its bytes where it exists, and the files that were moved
/// aside.
pub ghost struct HistoryFile {
    pub bytes: Option<Seq<u8>>,
    pub aside: Seq<Seq<u8>>,
}

/// How histories are written to bytes and read back.
pub ghost struct HistoryFormat {
    pub write: spec_fn(Seq<TransferRecord>) -> Seq<u8>,
    pub read: spec_fn(Seq<u8>) -> Option<Seq<TransferRecord>>,
}

impl HistoryFormat {
    /// What is written is read back, and is never nothing.
    pub open spec fn sound(self) -> bool {
        forall|list: Seq<TransferRecord>|
            (self.read)(#[trigger] (self.write)(list)) == Some(list) && (self.write)(list).len() > 0
    }
}

impl HistoryFile {
    /// Whether the file has bytes that cannot be read.
    pub open spec fn unreadable(self, format: HistoryFormat) -> bool {
        self.bytes matches Some(b) && b.len() > 0 && (format.read)(b) is None
    }

    /// The records in the file; none where it is missing, empty or cannot be
    /// read.
    pub open spec fn held(self, format: HistoryFormat) -> Seq<TransferRecord> {
        match self.bytes {
            Some(b) => match (format.read)(b) {
                Some(list) => if b.len() > 0 {
                    list
                } else {
                    Seq::empty()
                },
                None => Seq::empty(),
            },
            None => Seq::empty(),
        }
    }

    /// The file after a transfer was recorded.
    pub open spec fn recorded(self, record: TransferRecord, format: HistoryFormat) -> HistoryFile {
        HistoryFile {
            bytes: Some((format.write)(self.held(format).push(record))),
            aside: if self.unreadable(format) {
                self.aside.push(self.bytes->0)
            } else {
                self.aside
            },
        }
    }

    /// The file after each of the transfers was recorded, in order.
    pub open spec fn all_recorded(self, list: Seq<TransferRecord>, format: HistoryFormat) -> HistoryFile
        decreases list.len(),
    {
        if list.len() == 0 {
            self
        } else {
            self.all_recorded(list.drop_last(), format).recorded(list.last(), format)
        }
    }
}

/// Recording appends: the file holds what it held before and every transfer
/// recorded since, in order; bytes that could not be read are kept aside, once
/// and unchanged.
pub proof fn law_recording_appends(
    file: HistoryFile,
    list: Seq<TransferRecord>,
    format: HistoryFormat,
)
    requires
        format.sound(),
    ensures
        file.all_recorded(list, format).held(format) == file.held(format) + list,
        list.len() > 0 ==> !file.all_recorded(list, format).unreadable(format),
        list.len() > 0 && file.unreadable(format) ==> file.all_recorded(list, format).aside
            == file.aside.push(file.bytes->0),
        !file.unreadable(format) ==> file.all_recorded(list, format).aside == file.aside,
    decreases list.len(),
{
    if list.len() == 0 {
        assert(file.held(format) + list =~= file.held(format));
    } else {
        let front = list.drop_last();
        law_recording_appends(file, front, format);
        let before = file.all_recorded(front, format);
        let records = before.held(format).push(list.last());
        assert((format.read)((format.write)(records)) == Some(records));
        assert(records =~= file.held(format) + list);
        if front.len() == 0 {
            assert(before == file);
        }
    }
}

/// Whether a record is one that a filter asks for: of the direction asked for,
/// where one is, and of the status asked for, where one is.
pub open spec fn asked_for(r: TransferRecord, f: HistoryFilter) -> bool {
    &&& f.direction is Some ==> r.direction == f.direction->0
    &&& f.completed ==> r.status is Completed
    &&& !f.completed && f.failed ==> r.status is Failed
}

proof fn lemma_filter_step(list: Seq<TransferRecord>, p: spec_fn(TransferRecord) -> bool)
    requires
        list.len() > 0,
    ensures
        list.filter(p) == (if p(list.last()) {
            list.drop_last().filter(p).push(list.last())
        } else {
            list.drop_last().filter(p)
        }),
{
    reveal(Seq::filter);
}

proof fn lemma_of_direction(list: Seq<TransferRecord>, d: TransferDirection)
    ensures
        of_direction(list, d) == list.filter(|r: TransferRecord| r.direction == d),
    decreases list.len(),
{
    let p = |r: TransferRecord| r.direction == d;
    if list.len() > 0 {
        lemma_of_direction(list.drop_last(), d);
        lemma_filter_step(list, p);
    } else {
        reveal(Seq::filter);
        assert(list.filter(p) =~= Seq::empty());
    }
}

proof fn lemma_of_status(list: Seq<TransferRecord>, s: TransferStatus)
    ensures
        of_status(list, s) == list.filter(|r: TransferRecord| r.status == s),
    decreases list.len(),
{
    let p = |r: TransferRecord| r.status == s;
    if list.len() > 0 {
        lemma_of_status(list.drop_last(), s);
        lemma_filter_step(list, p);
    } else {
        reveal(Seq::filter);
        assert(list.filter(p) =~= Seq::empty());
    }
}

/// Keeping one direction, or one status, keeps exactly the records that have
/// it, in their order.
pub proof fn law_kept_are_those_that_match(
    list: Seq<TransferRecord>,
    d: TransferDirection,
    s: TransferStatus,
)
    ensures
        of_direction(list, d) == list.filter(|r: TransferRecord| r.direction == d),
        of_status(list, s) == list.filter(|r: TransferRecord| r.status == s),
{
    lemma_of_direction(list, d);
    lemma_of_status(list, s);
}

proof fn lemma_filter_twice(
    list: Seq<TransferRecord>,
    p: spec_fn(TransferRecord) -> bool,
    q: spec_fn(TransferRecord) -> bool,
    both: spec_fn(TransferRecord) -> bool,
)
    requires
        forall|r: TransferRecord| #[trigger] both(r) == (p(r) && q(r)),
    ensures
        list.filter(p).filter(q) == list.filter(both),
    decreases list.len(),
{
    if list.len() > 0 {
        lemma_filter_twice(list.drop_last(), p, q, both);
        lemma_filter_step(list, p);
        lemma_filter_step(list, both);
        assert(both(list.last()) == (p(list.last()) && q(list.last())));
        if p(list.last()) {
            let kept = list.drop_last().filter(p);
            lemma_filter_step(kept.push(list.last()), q);
            assert(kept.push(list.last()).drop_last() =~= kept);
        }
    } else {
        reveal(Seq::filter);
        assert(list.filter(p) =~= Seq::empty());
        assert(list.filter(both) =~= Seq::empty());
    }
}

proof fn lemma_filter_same(
    list: Seq<TransferRecord>,
    p: spec_fn(TransferRecord) -> bool,
    q: spec_fn(TransferRecord) -> bool,
)
    requires
        forall|r: TransferRecord| #[trigger] p(r) == q(r),
    ensures
        list.filter(p) == list.filter(q),
    decreases list.len(),
{
    if list.len() > 0 {
        lemma_filter_same(list.drop_last(), p, q);
        lemma_filter_step(list, p);
        lemma_filter_step(list, q);
        assert(p(list.last()) == q(list.last()));
    } else {
        reveal(Seq::filter);
        assert(list.filter(p) =~= list.filter(q));
    }
}

proof fn lemma_filter_all(list: Seq<TransferRecord>, p: spec_fn(TransferRecord) -> bool)
    requires
        forall|r: TransferRecord| #[trigger] p(r),
    ensures
        list.filter(p) == list,
    decreases list.len(),
{
    if list.len() > 0 {
        lemma_filter_all(list.drop_last(), p);
        lemma_filter_step(list, p);
        assert(p(list.last()));
        assert(list.drop_last().push(list.last()) =~= list);
    } else {
        reveal(Seq::filter);
        assert(list.filter(p) =~= list);
    }
}

proof fn lemma_selected_from(list: Seq<TransferRecord>, f: HistoryFilter)
    ensures
        selected(list, f) == first_of(
            newest_first(list.filter(|r: TransferRecord| asked_for(r, f))),
            f.limit as nat,
        ),
{
    let whole = |r: TransferRecord| asked_for(r, f);
    let p = |r: TransferRecord| f.direction is Some ==> r.direction == f.direction->0;
    let q = |r: TransferRecord|
        (f.completed ==> r.status is Completed) && (!f.completed && f.failed ==> r.status is Failed);
    let by_direction = match f.direction {
        Some(d) => of_direction(list, d),
        None => list,
    };
    match f.direction {
        Some(d) => {
            lemma_of_direction(list, d);
            lemma_filter_same(list, |r: TransferRecord| r.direction == d, p);
        },
        None => {
            lemma_filter_all(list, p);
        },
    }
    assert(by_direction == list.filter(p));
    if f.completed {
        lemma_of_status(by_direction, TransferStatus::Completed);
        lemma_filter_same(
            by_direction,
            |r: TransferRecord| r.status == TransferStatus::Completed,
            q,
        );
    } else if f.failed {
        lemma_of_status(by_direction, TransferStatus::Failed);
        lemma_filter_same(by_direction, |r: TransferRecord| r.status == TransferStatus::Failed, q);
    } else {
        lemma_filter_all(by_direction, q);
    }
    lemma_filter_twice(list, p, q, whole);
}

/// What is selected is what was asked for: every record has the direction and
/// the status asked for; there are as many as asked for match, up to the limit;
/// they come latest first; and one that matches and is left out for the limit
/// started no later than any that is shown.
pub proof fn law_selection_is_what_was_asked_for(list: Seq<TransferRecord>, f: HistoryFilter)
    ensures
        ({
            let shown = selected(list, f);
            let matching = list.filter(|r: TransferRecord| asked_for(r, f));
            &&& forall|i: int| 0 <= i < shown.len() ==> asked_for(#[trigger] shown[i], f)
            &&& shown.len() <= f.limit
            &&& shown.len() < f.limit ==> shown.to_multiset() == matching.to_multiset()
            &&& shown.to_multiset().subset_of(matching.to_multiset())
            &&& matching.len() >= f.limit ==> shown.len() == f.limit
            &&& is_newest_first(shown)
            &&& forall|r: TransferRecord, i: int|
                #![trigger matching.contains(r), shown[i]]
                matching.contains(r) && !shown.contains(r) && 0 <= i < shown.len()
                    ==> shown[i].start_time >= r.start_time
        }),
{
    broadcast use vstd::seq_lib::group_to_multiset_ensures;

    let shown = selected(list, f);
    let p = |r: TransferRecord| asked_for(r, f);
    let matching = list.filter(p);
    lemma_selected_from(list, f);
    law_newest_first_sorts(matching);
    let sorted = newest_first(matching);
    matching.to_multiset_ensures();
    sorted.to_multiset_ensures();
    shown.to_multiset_ensures();
    assert forall|i: int| 0 <= i < shown.len() implies asked_for(#[trigger] shown[i], f) by {
        assert(sorted[i] == shown[i]);
        assert(sorted.to_multiset().count(sorted[i]) > 0);
        assert(matching.contains(sorted[i]));
        let k = choose|k: int| 0 <= k < matching.len() && matching[k] == sorted[i];
        list.lemma_filter_pred(p, k);
    }
    let n = shown.len() as int;
    let rest = sorted.skip(n);
    assert(sorted =~= shown + rest);
    vstd::seq_lib::lemma_multiset_commutative(shown, rest);
    assert forall|r: TransferRecord, i: int|
        #![trigger matching.contains(r), shown[i]]
        matching.contains(r) && !shown.contains(r) && 0 <= i < shown.len() implies shown[i].start_time
        >= r.start_time by {
        assert(sorted.to_multiset().count(r) > 0);
        let j = choose|j: int| 0 <= j < sorted.len() && sorted[j] == r;
        if j < n {
            assert(shown[j] == r);
        }
        assert(sorted[i].start_time >= sorted[j].start_time);
    }
}

/// Of records that started together the one that was added first is shown
/// first: in the list of all of them sorted, those that started at `t` stand in
/// the order they were added.
pub proof fn law_sorting_keeps_order_of_equals(list: Seq<TransferRecord>, t: u64)
    ensures
        newest_first(list).filter(|r: TransferRecord| r.start_time == t) == list.filter(
            |r: TransferRecord| r.start_time == t,
        ),
    decreases list.len(),
{
    let p = |r: TransferRecord| r.start_time == t;
    if list.len() > 0 {
        law_sorting_keeps_order_of_equals(list.drop_last(), t);
        law_newest_first_sorts(list.drop_last());
        lemma_put_keeps_order(newest_first(list.drop_last()), list.last(), t);
        lemma_filter_step(list, p);
    } else {
        assert(newest_first(list) =~= list);
    }
}

proof fn lemma_put_keeps_order(sorted: Seq<TransferRecord>, r: TransferRecord, t: u64)
    requires
        is_newest_first(sorted),
    ensures
        put_newest(sorted, r).filter(|x: TransferRecord| x.start_time == t) == (if r.start_time == t {
            sorted.filter(|x: TransferRecord| x.start_time == t).push(r)
        } else {
            sorted.filter(|x: TransferRecord| x.start_time == t)
        }),
    decreases sorted.len(),
{
    let p = |x: TransferRecord| x.start_time == t;
    if sorted.len() == 0 || sorted.last().start_time >= r.start_time {
        lemma_filter_step(sorted.push(r), p);
        assert(sorted.push(r).drop_last() =~= sorted);
    } else {
        let init = sorted.drop_last();
        lemma_put_keeps_order(init, r, t);
        let inner = put_newest(init, r);
        lemma_filter_step(inner.push(sorted.last()), p);
        assert(inner.push(sorted.last()).drop_last() =~= inner);
        lemma_filter_step(sorted, p);
        if r.start_time == t {
            assert(sorted.last().start_time != t);
        }
    }
}

/// The record found for a transfer is the first that has its identifier, and
/// none is found only where no record has it.
pub proof fn law_found_record_is_the_first(list: Seq<TransferRecord>, id: Seq<u8>)
    ensures
        match position_of(list, id) {
            Some(i) => 0 <= i < list.len() && list[i].transfer_id@ == id && forall|j: int|
                0 <= j < i ==> (#[trigger] list[j]).transfer_id@ != id,
            None => forall|j: int| 0 <= j < list.len() ==> (#[trigger] list[j]).transfer_id@ != id,
        },
    decreases list.len(),
{
    if list.len() > 0 {
        law_found_record_is_the_first(list.drop_last(), id);
        assert forall|j: int| 0 <= j < list.len() - 1 implies list.drop_last()[j] == list[j] by {}
    }
}

/// The time a transfer took, its start and its end fit together, unless the
/// clock was set back.
pub proof fn law_elapsed_leads_from_start_to_end(start: u64, now: u64)
    ensures
        start <= now ==> start + elapsed(start, now) == now,
        start > now ==> elapsed(start, now) == 0,
{
}

/// What is stored after a transfer is what the file says: the records that it
/// holds, where it can be read, and the new one behind them. The file is moved
/// aside exactly where it has bytes that cannot be read.
pub proof fn law_storing_keeps_what_the_file_holds(
    file: HistoryFile,
    format: HistoryFormat,
    record: TransferRecord,
)
    ensures
        ({
            let len = match file.bytes {
                Some(b) => Some(b.len()),
                None => None,
            };
            let stored = match file.bytes {
                Some(b) => (format.read)(b),
                None => None,
            };
            &&& to_store(len, stored, record) == file.held(format).push(record)
            &&& to_move_aside(len, stored) == file.unreadable(format)
        }),
{
}

/// The latest transfers are the first of all transfers sorted, as many as asked
/// for: none that is left out started later than one that is shown.
pub proof fn law_latest_transfers_come_first(list: Seq<TransferRecord>, limit: nat)
    ensures
        ({
            let shown = first_of(newest_first(list), limit);
            &&& shown.len() == (if limit < list.len() {
                limit
            } else {
                list.len()
            })
            &&& is_newest_first(shown)
            &&& shown.to_multiset().subset_of(list.to_multiset())
            &&& forall|r: TransferRecord, i: int|
                #![trigger list.contains(r), shown[i]]
                list.contains(r) && !shown.contains(r) && 0 <= i < shown.len()
                    ==> shown[i].start_time >= r.start_time
        }),
{
    broadcast use vstd::seq_lib::group_to_multiset_ensures;

    law_newest_first_sorts(list);
    let sorted = newest_first(list);
    let shown = first_of(sorted, limit);
    let n = shown.len() as int;
    let rest = sorted.skip(n);
    assert(sorted =~= shown + rest);
    vstd::seq_lib::lemma_multiset_commutative(shown, rest);
    list.to_multiset_ensures();
    sorted.to_multiset_ensures();
    assert forall|r: TransferRecord, i: int|
        #![trigger list.contains(r), shown[i]]
        list.contains(r) && !shown.contains(r) && 0 <= i < shown.len() implies shown[i].start_time
        >= r.start_time by {
        assert(sorted.to_multiset().count(r) > 0);
        let j = choose|j: int| 0 <= j < sorted.len() && sorted[j] == r;
        if j < n {
            assert(shown[j] == r);
        }
        assert(sorted[i].start_time >= sorted[j].start_time);
    }
}

/// A direction is named by `send`, `receive` or `recv`, and by no other word.
pub proof fn law_directions_have_three_names(word: Seq<char>)
    ensures
        direction_named(word) == Some(TransferDirection::Send) <==> word == "send"@,
        direction_named(word) == Some(TransferDirection::Receive) <==> word == "receive"@ || word
            == "recv"@,
{
    reveal_strlit("send");
    reveal_strlit("receive");
    reveal_strlit("recv");
    assert("send"@[0] == 's');
    assert("receive"@[0] == 'r');
    assert("recv"@[0] == 'r');
}

/// A record says how its transfer ended: what was transferred and how it went,
/// with the time it took from its start. What it was, with whom and when it
/// began does not change. One that failed keeps what it had and adds the error.
pub proof fn law_records_say_how_it_ended(
    before: TransferRecord,
    files: Vec<String>,
    bytes: u64,
    status: TransferStatus,
    now: u64,
    error: Seq<char>,
    failed: TransferRecord,
)
    requires
        failed_at(before, error, now, failed),
        before.start_time <= now,
    ensures
        ({
            let after = before.ended(files, bytes, status, now);
            &&& after.status == status
            &&& after.files == files
            &&& after.bytes_transferred == bytes
            &&& after.end_time == now
            &&& after.start_time + after.duration_secs == now
            &&& after.start_time == before.start_time
            &&& after.transfer_id == before.transfer_id
            &&& after.direction == before.direction
            &&& after.peer_address == before.peer_address
        }),
        failed.status is Failed,
        failed.start_time + failed.duration_secs == now,
        failed.bytes_transferred == before.bytes_transferred,
        failed.files@.len() == before.files@.len() + 1,
        failed.files@.last()@ == "Error: "@ + error,
        forall|i: int|
            0 <= i < before.files@.len() ==> failed.files@[i] == #[trigger] before.files@[i],
        failed.transfer_id == before.transfer_id,
        failed.direction == before.direction,
{
    assert forall|i: int| 0 <= i < before.files@.len() implies failed.files@[i]
        == #[trigger] before.files@[i] by {
        assert(failed.files@.drop_last()[i] == before.files@[i]);
    }
}

} // verus!
