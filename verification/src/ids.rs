//! Device and transfer identifiers: sixteen bytes, ordered as numbers.

use vstd::prelude::*;
use vstd::string::*;

use crate::codec::{be_value, lemma_be_value_bound, pow256};
use crate::verification::hex_chars;

verus! {

/// Whether `a` comes before `b`, byte by byte.
pub open spec fn comes_before(a: Seq<u8>, b: Seq<u8>) -> bool
    decreases a.len(),
{
    if a.len() == 0 || b.len() == 0 {
        a.len() < b.len()
    } else if a[0] != b[0] {
        a[0] < b[0]
    } else {
        comes_before(a.skip(1), b.skip(1))
    }
}

/// Whether identifier `a` comes before `b`.
pub fn id_less(a: &[u8; 16], b: &[u8; 16]) -> (r: bool)
    ensures
        r == comes_before(a@, b@),
{
    let mut i: usize = 0;
    assert(a@.skip(0) =~= a@);
    assert(b@.skip(0) =~= b@);
    while i < 16
        invariant
            i <= 16,
            comes_before(a@, b@) == comes_before(a@.skip(i as int), b@.skip(i as int)),
        decreases 16 - i,
    {
        if a[i] != b[i] {
            return a[i] < b[i];
        }
        assert(a@.skip(i as int).skip(1) =~= a@.skip(i + 1));
        assert(b@.skip(i as int).skip(1) =~= b@.skip(i + 1));
        i += 1;
    }
    false
}

/// Of two different identifiers exactly one comes first, so that two devices
/// that compare theirs always settle on different parts.
pub proof fn law_one_comes_first(a: Seq<u8>, b: Seq<u8>)
    requires
        a.len() == b.len(),
    ensures
        a != b ==> comes_before(a, b) != comes_before(b, a),
        a == b ==> !comes_before(a, b) && !comes_before(b, a),
    decreases a.len(),
{
    if a.len() == 0 {
        assert(a =~= b);
    } else if a[0] == b[0] {
        law_one_comes_first(a.skip(1), b.skip(1));
        if a.skip(1) == b.skip(1) {
            assert forall|i: int| 0 <= i < a.len() implies a[i] == b[i] by {
                if i > 0 {
                    assert(a[i] == a.skip(1)[i - 1]);
                    assert(b[i] == b.skip(1)[i - 1]);
                }
            }
            assert(a =~= b);
        }
    }
}

/// An identifier as it is written: groups of 4, 2, 2, 2 and 6 bytes in
/// hexadecimal, separated by hyphens.
pub open spec fn id_chars(id: Seq<u8>) -> Seq<char> {
    hex_chars(id.subrange(0, 4)) + "-"@ + hex_chars(id.subrange(4, 6)) + "-"@ + hex_chars(
        id.subrange(6, 8),
    ) + "-"@ + hex_chars(id.subrange(8, 10)) + "-"@ + hex_chars(id.subrange(10, 16))
}

/// The text of a `Uuid` of the `uuid` crate: its bytes in hexadecimal, in
/// groups of 8, 4, 4, 4 and 12 digits.
#[verifier::external_body]
pub(crate) fn id_text(id: &[u8; 16]) -> (r: String)
    ensures
        r@ == id_chars(id@),
{
    uuid::Uuid::from_bytes(*id).to_string()
}

/// The identifier of the device with a certificate fingerprint: its first
/// sixteen bytes.
pub fn device_id_from_fingerprint(fingerprint: &[u8; 32]) -> (r: [u8; 16])
    ensures
        r@ == fingerprint@.take(16),
{
    let mut id: [u8; 16] = [0; 16];
    let mut i: usize = 0;
    while i < 16
        invariant
            i <= 16,
            forall|j: int| 0 <= j < i ==> id@[j] == fingerprint@[j],
        decreases 16 - i,
    {
        id[i] = fingerprint[i];
        i += 1;
    }
    assert(id@ =~= fingerprint@.take(16));
    id
}

/// Identifiers are ordered as the numbers that their bytes spell, the first byte
/// counting most.
pub proof fn law_identifiers_are_ordered_as_numbers(a: Seq<u8>, b: Seq<u8>)
    requires
        a.len() == b.len(),
    ensures
        comes_before(a, b) <==> be_value(a) < be_value(b),
    decreases a.len(),
{
    if a.len() > 0 {
        law_identifiers_are_ordered_as_numbers(a.skip(1), b.skip(1));
        lemma_be_first(a);
        lemma_be_first(b);
        lemma_be_value_bound(a.skip(1));
        lemma_be_value_bound(b.skip(1));
        let p = pow256((a.len() - 1) as nat);
        let x = a[0] as nat;
        let y = b[0] as nat;
        let u = be_value(a.skip(1));
        let w = be_value(b.skip(1));
        if x < y {
            assert(x * p + u < y * p + w) by (nonlinear_arith)
                requires
                    x + 1 <= y,
                    u < p,
            ;
        }
        if y < x {
            assert(y * p + w < x * p + u) by (nonlinear_arith)
                requires
                    y + 1 <= x,
                    w < p,
            ;
        }
    }
}

proof fn lemma_be_first(s: Seq<u8>)
    requires
        s.len() > 0,
    ensures
        be_value(s) == s[0] as nat * pow256((s.len() - 1) as nat) + be_value(s.skip(1)),
    decreases s.len(),
{
    if s.len() == 1 {
        assert(s.drop_last() =~= Seq::empty());
        assert(s.skip(1) =~= Seq::empty());
        assert(pow256(0) == 1);
        assert(be_value(s) == s[0] as nat);
        assert(s[0] as nat * 1 == s[0] as nat);
    } else {
        lemma_be_first(s.drop_last());
        assert(s.drop_last().skip(1) =~= s.skip(1).drop_last());
        let p = pow256((s.len() - 2) as nat);
        assert(pow256((s.len() - 1) as nat) == 256 * p);
        let x = s[0] as nat;
        assert(256 * (x * p) == x * (256 * p)) by (nonlinear_arith);
    }
}

/// An identifier is written with all its digits: without the hyphens, which
/// stand behind 8, 12, 16 and 20 of them, it is its bytes in hexadecimal.
pub proof fn law_identifier_text_has_every_digit(id: Seq<u8>)
    requires
        id.len() == 16,
    ensures
        ({
            let t = id_chars(id);
            &&& t.len() == 36
            &&& t[8] == '-'
            &&& t[13] == '-'
            &&& t[18] == '-'
            &&& t[23] == '-'
            &&& t.subrange(0, 8) + t.subrange(9, 13) + t.subrange(14, 18) + t.subrange(19, 23)
                + t.subrange(24, 36) == hex_chars(id)
        }),
{
    let t = id_chars(id);
    reveal_strlit("-");
    let h = hex_chars(id);
    assert(h.subrange(0, 8) =~= hex_chars(id.subrange(0, 4)));
    assert(h.subrange(8, 12) =~= hex_chars(id.subrange(4, 6)));
    assert(h.subrange(12, 16) =~= hex_chars(id.subrange(6, 8)));
    assert(h.subrange(16, 20) =~= hex_chars(id.subrange(8, 10)));
    assert(h.subrange(20, 32) =~= hex_chars(id.subrange(10, 16)));
    assert(h =~= h.subrange(0, 8) + h.subrange(8, 12) + h.subrange(12, 16) + h.subrange(16, 20)
        + h.subrange(20, 32));
    assert(t.subrange(0, 8) =~= hex_chars(id.subrange(0, 4)));
    assert(t.subrange(9, 13) =~= hex_chars(id.subrange(4, 6)));
    assert(t.subrange(14, 18) =~= hex_chars(id.subrange(6, 8)));
    assert(t.subrange(19, 23) =~= hex_chars(id.subrange(8, 10)));
    assert(t.subrange(24, 36) =~= hex_chars(id.subrange(10, 16)));
}

/// A device is known by the first sixteen bytes of its fingerprint.
pub proof fn law_devices_are_known_by_their_fingerprint(fingerprint: [u8; 32], r: [u8; 16])
    requires
        call_ensures(device_id_from_fingerprint, (&fingerprint,), r),
    ensures
        forall|i: int| 0 <= i < 16 ==> #[trigger] r@[i] == fingerprint@[i],
{
    assert forall|i: int| 0 <= i < 16 implies #[trigger] r@[i] == fingerprint@[i] by {
        assert(fingerprint@.take(16)[i] == fingerprint@[i]);
    }
}

} // verus!
