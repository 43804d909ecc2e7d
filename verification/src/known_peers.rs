//! The peers that were trusted before, by certificate fingerprint.
//!
//! Trust is given on first use: a fingerprint that was never seen is pinned,
//! and one that differs from what the peer claims ends the connection.

use vstd::prelude::*;
use vstd::string::*;

use crate::clock::now_secs;
use crate::error::{Error, Result};
use crate::identity::Fingerprint;
use crate::table::{Table, TableKey};
use crate::text::{bytes_eq, chars_of, string_copy};
use crate::verification::{hex_chars, hex_encode};

verus! {

/// What is known of a peer.
#[derive(Debug, Clone)]
pub struct PeerRecord {
    pub display_name: String,
    /// When the peer was first trusted, in seconds since the epoch.
    pub first_seen: u64,
    /// When the peer was last met, in seconds since the epoch.
    pub last_seen: u64,
}

/// What is known of a peer, as a value.
pub ghost struct PeerRecordView {
    pub display_name: Seq<char>,
    pub first_seen: u64,
    pub last_seen: u64,
}

impl View for PeerRecord {
    type V = PeerRecordView;

    open spec fn view(&self) -> PeerRecordView {
        PeerRecordView {
            display_name: self.display_name@,
            first_seen: self.first_seen,
            last_seen: self.last_seen,
        }
    }
}

impl PeerRecord {
    fn copied(&self) -> (r: Self)
        ensures
            r@ == self@,
    {
        PeerRecord {
            display_name: string_copy(self.display_name.as_str()),
            first_seen: self.first_seen,
            last_seen: self.last_seen,
        }
    }
}

/// Whether `a` comes before `b` in the order of strings.
pub open spec fn text_before(a: Seq<char>, b: Seq<char>) -> bool
    decreases a.len(),
{
    if a.len() == 0 || b.len() == 0 {
        a.len() < b.len()
    } else if a[0] != b[0] {
        a[0] < b[0]
    } else {
        text_before(a.skip(1), b.skip(1))
    }
}

fn str_less(a: &str, b: &str) -> (r: bool)
    ensures
        r == text_before(a@, b@),
{
    let x: Vec<char> = chars_of(a);
    let y: Vec<char> = chars_of(b);
    let mut i: usize = 0;
    assert(x@.skip(0) =~= x@);
    assert(y@.skip(0) =~= y@);
    while i < x.len() && i < y.len()
        invariant
            x@ == a@,
            y@ == b@,
            i <= x@.len(),
            i <= y@.len(),
            text_before(x@, y@) == text_before(x@.skip(i as int), y@.skip(i as int)),
        decreases x@.len() - i,
    {
        if x[i] != y[i] {
            return x[i] < y[i];
        }
        assert(x@.skip(i as int).skip(1) =~= x@.skip(i + 1));
        assert(y@.skip(i as int).skip(1) =~= y@.skip(i + 1));
        i += 1;
    }
    x.len() < y.len()
}

proof fn lemma_text_before_trans(a: Seq<char>, b: Seq<char>, c: Seq<char>)
    requires
        text_before(a, b),
        text_before(b, c),
    ensures
        text_before(a, c),
    decreases a.len(),
{
    if a.len() > 0 && b.len() > 0 && c.len() > 0 && a[0] == b[0] && b[0] == c[0] {
        lemma_text_before_trans(a.skip(1), b.skip(1), c.skip(1));
    }
}

proof fn lemma_text_before_total(a: Seq<char>, b: Seq<char>)
    ensures
        a != b ==> text_before(a, b) || text_before(b, a),
    decreases a.len(),
{
    if a.len() == 0 || b.len() == 0 {
        if a.len() == b.len() {
            assert(a =~= b);
        }
    } else if a[0] == b[0] {
        lemma_text_before_total(a.skip(1), b.skip(1));
        if a.skip(1) == b.skip(1) {
            assert(a.skip(1).len() == b.skip(1).len());
            assert forall|i: int| 0 <= i < a.len() implies a[i] == b[i] by {
                if i > 0 {
                    assert(a[i] == a.skip(1)[i - 1]);
                    assert(b[i] == b.skip(1)[i - 1]);
                }
            }
            assert(a =~= b);
        }
    }
}

/// Keys in strictly ascending order.
pub open spec fn ascending(list: Seq<(String, PeerRecord)>) -> bool {
    forall|i: int, j: int|
        0 <= i < j < list.len() ==> text_before((#[trigger] list[i]).0@, (#[trigger] list[j]).0@)
}

/// The trusted peers, by fingerprint in hexadecimal.
pub struct KnownPeers {
    peers: Table<String, PeerRecord>,
}

impl View for KnownPeers {
    type V = Map<Seq<char>, PeerRecord>;

    closed spec fn view(&self) -> Map<Seq<char>, PeerRecord> {
        self.peers@
    }
}

/// What is known of a peer after it was met at `now` under a name; a blank
/// name leaves the one known before.
pub open spec fn met(before: Option<PeerRecordView>, name: Seq<char>, now: u64) -> PeerRecordView {
    match before {
        None => PeerRecordView { display_name: name, first_seen: now, last_seen: now },
        Some(record) => PeerRecordView {
            display_name: if name.len() > 0 {
                name
            } else {
                record.display_name
            },
            last_seen: now,
            ..record
        },
    }
}

/// What is known of a peer.
pub open spec fn known(m: Map<Seq<char>, PeerRecord>, key: Seq<char>) -> Option<PeerRecordView> {
    if m.contains_key(key) {
        Some(m[key]@)
    } else {
        None
    }
}

/// `after` is `before` with the peer `key` met at `now`, and no other change.
pub open spec fn peer_met(
    before: Map<Seq<char>, PeerRecord>,
    after: Map<Seq<char>, PeerRecord>,
    key: Seq<char>,
    name: Seq<char>,
    now: u64,
) -> bool {
    &&& known(after, key) == Some(met(known(before, key), name, now))
    &&& after.remove(key) == before.remove(key)
}

/// What follows where a peer that claims a fingerprint presents one: the same is
/// accepted and remembered, another is refused.
pub open spec fn pinned(
    before: Map<Seq<char>, PeerRecord>,
    claimed: Seq<u8>,
    presented: Seq<u8>,
    name: Seq<char>,
    now: u64,
    after: Map<Seq<char>, PeerRecord>,
    r: Result<()>,
) -> bool {
    if claimed == presented {
        r is Ok && peer_met(before, after, hex_chars(claimed), name, now)
    } else {
        after == before && (r matches Err(e) && e is FingerprintMismatch)
    }
}

impl KnownPeers {
    pub closed spec fn wf(&self) -> bool {
        self.peers.wf()
    }

    /// No peer is trusted.
    pub fn new() -> (r: Self)
        ensures
            r.wf(),
            r@ == Map::<Seq<char>, PeerRecord>::empty(),
    {
        KnownPeers { peers: Table::new() }
    }

    /// Puts a peer in as it was stored.
    pub fn restore(&mut self, key: String, record: PeerRecord)
        requires
            old(self).wf(),
        ensures
            final(self).wf(),
            final(self)@ == old(self)@.insert(key@, record),
    {
        self.peers.insert(key, record);
    }

    /// What is known of the peer with a fingerprint.
    pub fn get(&self, fp: &Fingerprint) -> (r: Option<PeerRecord>)
        requires
            self.wf(),
        ensures
            match r {
                Some(record) => known(self@, hex_chars(fp@)) == Some(record@),
                None => known(self@, hex_chars(fp@)) is None,
            },
    {
        match self.peers.get(&hex_encode(fp.as_slice())) {
            Some(record) => Some(record.copied()),
            None => None,
        }
    }

    /// Trusts a peer that is met at `now`.
    pub fn trust_at(&mut self, fp: &Fingerprint, display_name: &str, now: u64)
        requires
            old(self).wf(),
        ensures
            final(self).wf(),
            peer_met(old(self)@, final(self)@, hex_chars(fp@), display_name@, now),
    {
        let key: String = hex_encode(fp.as_slice());
        let ghost before = self@;
        let record: PeerRecord = match self.peers.remove(&key) {
            Some(record) => {
                let mut record = record;
                record.last_seen = now;
                if display_name.unicode_len() > 0 {
                    record.display_name = string_copy(display_name);
                }
                record
            },
            None => PeerRecord {
                display_name: string_copy(display_name),
                first_seen: now,
                last_seen: now,
            },
        };
        self.peers.insert(key, record);
        assert(self@.remove(hex_chars(fp@)) =~= before.remove(hex_chars(fp@)));
    }

    /// Trusts a peer that is met now.
    pub fn trust(&mut self, fp: &Fingerprint, display_name: &str)
        requires
            old(self).wf(),
        ensures
            final(self).wf(),
            exists|now: u64| #[trigger]
                peer_met(old(self)@, final(self)@, hex_chars(fp@), display_name@, now),
    {
        self.trust_at(fp, display_name, now_secs());
    }

    /// Accepts a peer that presents the fingerprint it claims, and remembers it
    /// as met at `now`. A peer that presents another is refused, and nothing is
    /// remembered.
    pub fn verify_or_pin_at(
        &mut self,
        claimed_fp: &Fingerprint,
        presented_fp: &Fingerprint,
        display_name: &str,
        now: u64,
    ) -> (r: Result<()>)
        requires
            old(self).wf(),
        ensures
            final(self).wf(),
            pinned(old(self)@, claimed_fp@, presented_fp@, display_name@, now, final(self)@, r),
    {
        if !bytes_eq(claimed_fp.as_slice(), presented_fp.as_slice()) {
            return Err(Error::FingerprintMismatch);
        }
        self.trust_at(claimed_fp, display_name, now);
        Ok(())
    }

    /// Accepts a peer that presents the fingerprint it claims.
    pub fn verify_or_pin(
        &mut self,
        claimed_fp: &Fingerprint,
        presented_fp: &Fingerprint,
        display_name: &str,
    ) -> (r: Result<()>)
        requires
            old(self).wf(),
        ensures
            final(self).wf(),
            exists|now: u64| #[trigger]
                pinned(old(self)@, claimed_fp@, presented_fp@, display_name@, now, final(self)@, r),
    {
        self.verify_or_pin_at(claimed_fp, presented_fp, display_name, now_secs())
    }

    /// Forgets a peer.
    pub fn forget(&mut self, fp: &Fingerprint)
        requires
            old(self).wf(),
        ensures
            final(self).wf(),
            final(self)@ == old(self)@.remove(hex_chars(fp@)),
    {
        self.peers.remove(&hex_encode(fp.as_slice()));
    }

    /// All trusted peers, in the order of their fingerprints.
    pub fn list(&self) -> (r: Vec<(String, PeerRecord)>)
        requires
            self.wf(),
        ensures
            ascending(r@),
            forall|i: int|
                0 <= i < r@.len() ==> known(self@, (#[trigger] r@[i]).0@) == Some(r@[i].1@),
            forall|k: Seq<char>| #[trigger]
                self@.contains_key(k) ==> exists|i: int|
                    0 <= i < r@.len() && (#[trigger] r@[i]).0@ == k,
    {
        let mut out: Vec<(String, PeerRecord)> = Vec::new();
        let mut n: usize = 0;
        while n < self.peers.len()
            invariant
                self.wf(),
                n <= self.peers.entries().len(),
                ascending(out@),
                forall|i: int|
                    0 <= i < out@.len() ==> known(self@, (#[trigger] out@[i]).0@) == Some(
                        out@[i].1@,
                    ),
                forall|k: Seq<char>|
                    has_key(out@, k) <==> #[trigger] has_key(self.peers.entries().take(n as int), k),
            decreases self.peers.entries().len() - n,
        {
            let key: String = string_copy(self.peers.key_at(n).as_str());
            let record: PeerRecord = self.peers.value_at(n).copied();
            let ghost done = self.peers.entries().take(n as int);
            let ghost entry = self.peers.entries()[n as int];
            proof {
                self.peers.entries_are_map();
                assert(entry.0.id() == key@);
                assert(known(self@, key@) == Some(record@));
                if has_key(out@, key@) {
                    assert(has_key(done, key@));
                    let m = choose|m: int| 0 <= m < done.len() && (#[trigger] done[m]).0@ == key@;
                    assert(self.peers.entries()[m].0.id() != entry.0.id());
                }
                assert(self.peers.entries().take(n + 1) =~= done.push(entry));
            }
            let ghost before = out@;
            let ghost name = key@;
            let ghost value = record@;
            insert_sorted(&mut out, key, record);
            proof {
                assert forall|k: Seq<char>|
                    has_key(out@, k) <==> #[trigger] has_key(
                        self.peers.entries().take(n + 1),
                        k,
                    ) by {
                    lemma_push_key(done, entry, k);
                    assert(has_key(before, k) <==> has_key(done, k));
                }
            }
            n += 1;
        }
        proof {
            self.peers.entries_are_map();
            assert(self.peers.entries().take(n as int) =~= self.peers.entries());
            assert forall|k: Seq<char>| #[trigger] self@.contains_key(k) implies exists|i: int|
                0 <= i < out@.len() && (#[trigger] out@[i]).0@ == k by {
                let m = choose|m: int|
                    0 <= m < self.peers.entries().len() && (
                    #[trigger] self.peers.entries()[m]).0.id() == k;
                assert(self.peers.entries()[m].0@ == k);
                assert(has_key(self.peers.entries().take(n as int), k));
            }
        }
        out
    }
}

/// Whether a list has an entry with a key.
spec fn has_key(list: Seq<(String, PeerRecord)>, k: Seq<char>) -> bool {
    exists|i: int| 0 <= i < list.len() && (#[trigger] list[i]).0@ == k
}

proof fn lemma_push_key(list: Seq<(String, PeerRecord)>, entry: (String, PeerRecord), k: Seq<char>)
    ensures
        has_key(list.push(entry), k) <==> has_key(list, k) || entry.0@ == k,
{
    let more = list.push(entry);
    if has_key(list, k) {
        let i = choose|i: int| 0 <= i < list.len() && (#[trigger] list[i]).0@ == k;
        assert(more[i].0@ == k);
    }
    if entry.0@ == k {
        assert(more[list.len() as int].0@ == k);
    }
    if has_key(more, k) && entry.0@ != k {
        let i = choose|i: int| 0 <= i < more.len() && (#[trigger] more[i]).0@ == k;
        assert(list[i].0@ == k);
    }
}

/// Puts an entry into a sorted list that has none with its key.
fn insert_sorted(list: &mut Vec<(String, PeerRecord)>, key: String, record: PeerRecord)
    requires
        ascending(old(list)@),
        !has_key(old(list)@, key@),
    ensures
        ascending(final(list)@),
        forall|k: Seq<char>| #[trigger]
            has_key(final(list)@, k) <==> has_key(old(list)@, k) || k == key@,
        forall|i: int|
            0 <= i < final(list)@.len() ==> (#[trigger] final(list)@[i]) == (key, record) || exists|
                j: int,
            |
                0 <= j < old(list)@.len() && #[trigger] old(list)@[j] == final(list)@[i],
{
    let mut at: usize = 0;
    while at < list.len() && str_less(list[at].0.as_str(), key.as_str())
        invariant
            at <= list@.len(),
            forall|j: int| 0 <= j < at ==> text_before((#[trigger] list@[j]).0@, key@),
        decreases list@.len() - at,
    {
        at += 1;
    }
    let ghost before = list@;
    let ghost name = key@;
    let ghost entry = (key, record);
    proof {
        if at < before.len() {
            assert(before[at as int].0@ != name);
            lemma_text_before_total(before[at as int].0@, name);
        }
    }
    list.insert(at, (key, record));
    proof {
        let after = list@;
        assert forall|i: int, j: int| 0 <= i < j < after.len() implies text_before(
            (#[trigger] after[i]).0@,
            (#[trigger] after[j]).0@,
        ) by {
            let i2 = if i < at {
                i
            } else {
                i - 1
            };
            let j2 = if j < at {
                j
            } else {
                j - 1
            };
            if i != at {
                assert(after[i] == before[i2]);
            }
            if j != at {
                assert(after[j] == before[j2]);
            }
            if i == at && j2 > at {
                lemma_text_before_trans(name, before[at as int].0@, before[j2].0@);
            }
        }
        assert forall|i: int| 0 <= i < after.len() implies (#[trigger] after[i]) == entry || exists|
            j: int,
        |
            0 <= j < before.len() && #[trigger] before[j] == after[i] by {
            if i < at {
                assert(before[i] == after[i]);
            } else if i > at {
                assert(before[i - 1] == after[i]);
            }
        }
        assert forall|k: Seq<char>| #[trigger] has_key(after, k) <==> has_key(before, k) || k
            == name by {
            if has_key(after, k) && k != name {
                let i = choose|i: int| 0 <= i < after.len() && (#[trigger] after[i]).0@ == k;
                let j = if i < at {
                    i
                } else {
                    i - 1
                };
                assert(before[j].0@ == k);
            }
            if has_key(before, k) {
                let j = choose|j: int| 0 <= j < before.len() && (#[trigger] before[j]).0@ == k;
                let i = if j < at {
                    j
                } else {
                    j + 1
                };
                assert(after[i].0@ == k);
            }
            if k == name {
                assert(after[at as int].0@ == k);
            }
        }
    }
}

/// A peer that was accepted is known from then on, and meeting it again never
/// changes when it was first trusted.
pub proof fn law_first_seen_is_kept(
    before: Map<Seq<char>, PeerRecord>,
    after: Map<Seq<char>, PeerRecord>,
    key: Seq<char>,
    name: Seq<char>,
    now: u64,
)
    requires
        peer_met(before, after, key, name, now),
    ensures
        known(after, key) is Some,
        known(before, key) matches Some(record) ==> known(after, key)->0.first_seen
            == record.first_seen,
        known(before, key) is None ==> known(after, key)->0.first_seen == now,
        forall|other: Seq<char>|
            other != key ==> #[trigger] known(after, other) == known(before, other),
{
    assert forall|other: Seq<char>| other != key implies #[trigger] known(after, other) == known(
        before,
        other,
    ) by {
        assert(after.remove(key).contains_key(other) == before.remove(key).contains_key(other));
        if after.contains_key(other) {
            assert(after.remove(key)[other] == before.remove(key)[other]);
        }
    }
}

/// Meeting a peer is remembered: it was last met now, it has the name it goes by
/// now, or the one before where it gives none, and nothing changes for anyone
/// else.
pub proof fn law_meeting_is_remembered(
    before: Map<Seq<char>, PeerRecord>,
    after: Map<Seq<char>, PeerRecord>,
    key: Seq<char>,
    name: Seq<char>,
    now: u64,
)
    requires
        peer_met(before, after, key, name, now),
    ensures
        after.contains_key(key),
        after[key].last_seen == now,
        name.len() > 0 ==> after[key].display_name@ == name,
        name.len() == 0 && before.contains_key(key) ==> after[key].display_name@
            == before[key].display_name@,
        before.contains_key(key) ==> after[key].first_seen == before[key].first_seen,
        !before.contains_key(key) ==> after[key].first_seen == now,
        forall|other: Seq<char>|
            other != key ==> (#[trigger] after.contains_key(other) <==> before.contains_key(other)),
        forall|other: Seq<char>|
            other != key && #[trigger] before.contains_key(other) ==> after[other] == before[other],
{
    let a = after.remove(key);
    let b = before.remove(key);
    assert forall|other: Seq<char>| other != key implies (#[trigger] after.contains_key(other)
        <==> before.contains_key(other)) by {
        assert(a.contains_key(other) <==> b.contains_key(other));
    }
    assert forall|other: Seq<char>|
        other != key && #[trigger] before.contains_key(other) implies after[other] == before[other] by {
        assert(b.contains_key(other));
        assert(a[other] == b[other]);
    }
}

/// The order of the list is that of strings: of two different texts one comes
/// first, where they first differ or where one ends.
pub proof fn law_texts_are_ordered_where_they_differ(a: Seq<char>, b: Seq<char>)
    ensures
        text_before(a, b) <==> exists|n: int| #[trigger] first_difference(a, b, n),
    decreases a.len(),
{
    if a.len() == 0 || b.len() == 0 {
        if a.len() < b.len() {
            assert(first_difference(a, b, 0));
        }
    } else if a[0] != b[0] {
        if a[0] < b[0] {
            assert(first_difference(a, b, 0));
        }
        if exists|n: int| #[trigger] first_difference(a, b, n) {
            let n = choose|n: int| #[trigger] first_difference(a, b, n);
            if n > 0 {
                assert(a[0] == b[0]);
            }
        }
    } else {
        law_texts_are_ordered_where_they_differ(a.skip(1), b.skip(1));
        if exists|n: int| #[trigger] first_difference(a.skip(1), b.skip(1), n) {
            let n = choose|n: int| #[trigger] first_difference(a.skip(1), b.skip(1), n);
            assert forall|i: int| 0 <= i < n + 1 implies #[trigger] a[i] == b[i] by {
                if i > 0 {
                    assert(a.skip(1)[i - 1] == b.skip(1)[i - 1]);
                }
            }
            assert(first_difference(a, b, n + 1));
        }
        if exists|n: int| #[trigger] first_difference(a, b, n) {
            let n = choose|n: int| #[trigger] first_difference(a, b, n);
            assert(n > 0);
            assert forall|i: int| 0 <= i < n - 1 implies #[trigger] a.skip(1)[i] == b.skip(1)[i] by {
                assert(a[i + 1] == b[i + 1]);
            }
            assert(first_difference(a.skip(1), b.skip(1), n - 1));
        }
    }
}

/// Two texts agree in their first `n` characters, and then the first one ends
/// before the other or goes on with a smaller character.
pub open spec fn first_difference(a: Seq<char>, b: Seq<char>, n: int) -> bool {
    &&& 0 <= n <= a.len()
    &&& n < b.len()
    &&& forall|i: int| 0 <= i < n ==> #[trigger] a[i] == b[i]
    &&& n < a.len() ==> a[n] < b[n]
}

/// A peer is accepted if and only if it presents the fingerprint it claims. It
/// is known from then on, under that fingerprint; one that is refused leaves no
/// trace.
pub proof fn law_peers_are_pinned_or_refused(
    before: Map<Seq<char>, PeerRecord>,
    claimed: Seq<u8>,
    presented: Seq<u8>,
    name: Seq<char>,
    now: u64,
    after: Map<Seq<char>, PeerRecord>,
    r: Result<()>,
)
    requires
        pinned(before, claimed, presented, name, now, after, r),
    ensures
        r is Ok <==> claimed == presented,
        r is Ok ==> after.contains_key(hex_chars(presented)) && after[hex_chars(
            presented,
        )].last_seen == now,
        r is Err ==> after == before && r->Err_0 is FingerprintMismatch,
{
}

} // verus!
