//! Which certificates are accepted: exactly the one whose fingerprint is
//! pinned.

use vstd::prelude::*;
use vstd::string::*;

use crate::identity::Fingerprint;
use crate::identity::fingerprint_of;
use crate::verification::{hex_chars, hex_encode, sha256_of};

verus! {

/// Compares two fingerprints in a time that does not depend on them.
pub fn ct_eq_fingerprint(a: &Fingerprint, b: &Fingerprint) -> (r: bool)
    ensures
        r == (a@ == b@),
{
    let mut diff: u8 = 0;
    let mut i: usize = 0;
    while i < 32
        invariant
            i <= 32,
            diff == 0 <==> forall|j: int| 0 <= j < i ==> a@[j] == b@[j],
        decreases 32 - i,
    {
        let x: u8 = a[i];
        let y: u8 = b[i];
        assert((diff | (x ^ y)) == 0 <==> diff == 0 && x == y) by (bit_vector);
        diff = diff | (x ^ y);
        i += 1;
    }
    if diff == 0 {
        assert(a@ =~= b@);
    }
    diff == 0
}

/// A verifier that accepts one certificate.
#[derive(Debug, Clone, Copy)]
pub struct FingerprintVerifier {
    pub expected: Fingerprint,
}

impl FingerprintVerifier {
    /// A verifier that accepts the certificate with this fingerprint.
    pub fn new(expected: Fingerprint) -> (r: Self)
        ensures
            r.expected == expected,
    {
        FingerprintVerifier { expected }
    }

    /// Checks the certificate that a server presents.
    pub fn verify_server_cert(&self, cert_der: &[u8]) -> (r: Result<(), String>)
        ensures
            r is Ok <==> sha256_of(cert_der@) == self.expected@,
            r matches Err(m) ==> m@ == "peer fingerprint mismatch (expected "@ + hex_chars(
                self.expected@,
            ) + ", got "@ + hex_chars(sha256_of(cert_der@)) + ")"@,
    {
        let presented: Fingerprint = fingerprint_of(cert_der);
        if ct_eq_fingerprint(&presented, &self.expected) {
            return Ok(());
        }
        let mut m = "peer fingerprint mismatch (expected ".to_owned();
        m.append(hex_encode(self.expected.as_slice()).as_str());
        m.append(", got ");
        m.append(hex_encode(presented.as_slice()).as_str());
        m.append(")");
        Err(m)
    }
}

/// A certificate is accepted if and only if its fingerprint is the pinned one;
/// two fingerprints count as the same exactly where every byte is.
pub proof fn law_only_the_pinned_certificate_is_accepted(
    verifier: FingerprintVerifier,
    cert: &[u8],
    r: Result<(), String>,
    a: Fingerprint,
    b: Fingerprint,
    same: bool,
)
    requires
        call_ensures(FingerprintVerifier::verify_server_cert, (&verifier, cert), r),
        call_ensures(ct_eq_fingerprint, (&a, &b), same),
    ensures
        r is Ok <==> sha256_of(cert@) == verifier.expected@,
        same <==> forall|i: int| 0 <= i < 32 ==> #[trigger] a@[i] == b@[i],
{
    if forall|i: int| 0 <= i < 32 ==> #[trigger] a@[i] == b@[i] {
        assert(a@ =~= b@);
    }
}

} // verus!
