//! Device identities: a key pair, a self-signed certificate, and its
//! fingerprint, which is what other devices know this one by.

use base64::engine::general_purpose::STANDARD;
use base64::Engine;
use rustls::pki_types::PrivatePkcs8KeyDer;
use vstd::prelude::*;
use vstd::string::*;

use crate::error::{Error, Result};
use crate::text::{chars_of, find, find_from, is_white, stands_at, string_of, white};
use crate::verification::{
    fingerprint_written, hex_chars, hex_encode, law_fingerprints_are_read_back, sha256, sha256_of,
};

verus! {

/// The SHA-256 of a certificate.
pub type Fingerprint = [u8; 32];

/// What the standard base64 engine makes of bytes.
pub uninterp spec fn base64_encoded(data: Seq<u8>) -> Seq<char>;

/// What the standard base64 engine reads from text; `None` where it reports an
/// error.
pub uninterp spec fn base64_decoded(text: Seq<char>) -> Option<Seq<u8>>;

/// The characters of standard base64, padding included.
pub open spec fn is_base64_char(c: char) -> bool {
    ('A' <= c && c <= 'Z') || ('a' <= c && c <= 'z') || ('0' <= c && c <= '9') || c == '+' || c
        == '/' || c == '='
}

/// `Engine::encode` of the standard engine of the `base64` crate: text of its
/// alphabet, from which decoding gives the bytes back. It panics where the
/// length of the text would not fit.
#[verifier::external_body]
fn base64_encode(data: &[u8]) -> (r: String)
    requires
        data@.len() <= usize::MAX / 4,
    ensures
        r@ == base64_encoded(data@),
        base64_decoded(r@) == Some(data@),
        forall|i: int| 0 <= i < r@.len() ==> is_base64_char(#[trigger] r@[i]),
{
    STANDARD.encode(data)
}

/// `Engine::decode` of the standard engine of the `base64` crate. What the
/// text of an error says is left open.
#[verifier::external_body]
fn base64_decode(text: &str) -> (r: core::result::Result<Vec<u8>, String>)
    ensures
        r is Ok <==> base64_decoded(text@) is Some,
        r matches Ok(data) ==> base64_decoded(text@) == Some(data@),
{
    STANDARD.decode(text).map_err(|e| e.to_string())
}

/// The line that opens a PEM section.
pub open spec fn begin_marker(label: Seq<char>) -> Seq<char> {
    "-----BEGIN "@ + label + "-----"@
}

/// The line that closes a PEM section.
pub open spec fn end_marker(label: Seq<char>) -> Seq<char> {
    "-----END "@ + label + "-----"@
}

/// A string without its white space.
pub open spec fn without_white(s: Seq<char>) -> Seq<char>
    decreases s.len(),
{
    if s.len() == 0 {
        Seq::empty()
    } else if is_white(s.last()) {
        without_white(s.drop_last())
    } else {
        without_white(s.drop_last()).push(s.last())
    }
}

/// A text whose sections, where they close at all, do not close before they
/// open.
pub open spec fn pem_ordered(pem: Seq<char>, label: Seq<char>) -> bool {
    match (find_from(pem, begin_marker(label), 0), find_from(pem, end_marker(label), 0)) {
        (Some(i), Some(j)) => i + begin_marker(label).len() <= j,
        _ => true,
    }
}

/// What stands between the markers of a section, without white space.
pub open spec fn pem_body(pem: Seq<char>, label: Seq<char>) -> Option<Seq<char>> {
    match (find_from(pem, begin_marker(label), 0), find_from(pem, end_marker(label), 0)) {
        (Some(i), Some(j)) => Some(
            without_white(pem.subrange((i + begin_marker(label).len()) as int, j as int)),
        ),
        _ => None,
    }
}

fn marker(kind: &str, label: &str) -> (r: Vec<char>)
    ensures
        r@ == kind@ + label@ + "-----"@,
{
    let mut m = kind.to_owned();
    m.append(label);
    m.append("-----");
    chars_of(m.as_str())
}

fn tls_error(before: &str, label: &str, after: &str) -> (e: Error)
    ensures
        e matches Error::Tls(m) && m@ == before@ + label@ + after@ && stands_at(m@, before@, 0),
{
    let mut m = before.to_owned();
    m.append(label);
    m.append(after);
    assert(m@.subrange(0, before@.len() as int) =~= before@);
    Error::Tls(m)
}

/// Whether a text can be read as PEM: no section closes before it opens.
pub fn is_pem_ordered(pem: &str, label: &str) -> (r: bool)
    ensures
        r == pem_ordered(pem@, label@),
{
    let chars: Vec<char> = chars_of(pem);
    let begin: Vec<char> = marker("-----BEGIN ", label);
    let end: Vec<char> = marker("-----END ", label);
    let n: usize = chars.len();
    match (find(&chars, &begin), find(&chars, &end)) {
        (Some(i), Some(j)) => i + begin.len() <= j,
        _ => true,
    }
}

/// The bytes of a PEM section; `None` where it cannot be read.
pub open spec fn pem_data(pem: Seq<char>, label: Seq<char>) -> Option<Seq<u8>> {
    match pem_body(pem, label) {
        Some(body) => base64_decoded(body),
        None => None,
    }
}

/// Whether `e` says why a PEM section cannot be read: a marker is missing, or
/// what stands between them is no base64, which the decoder words itself.
pub open spec fn pem_fault(pem: Seq<char>, label: Seq<char>, e: Error) -> bool {
    if find_from(pem, begin_marker(label), 0) is None {
        e matches Error::Tls(m) && m@ == "PEM missing "@ + label + " header"@
    } else if find_from(pem, end_marker(label), 0) is None {
        e matches Error::Tls(m) && m@ == "PEM missing "@ + label + " footer"@
    } else {
        e matches Error::Tls(m) && stands_at(m@, "PEM base64 decode: "@, 0)
    }
}

/// Reads the bytes of a PEM section.
pub fn pem_to_der(pem: &str, label: &str) -> (r: Result<Vec<u8>>)
    requires
        pem_ordered(pem@, label@),
    ensures
        match pem_data(pem@, label@) {
            Some(data) => r matches Ok(out) && out@ == data,
            None => r matches Err(e) && pem_fault(pem@, label@, e),
        },
{
    let chars: Vec<char> = chars_of(pem);
    let begin: Vec<char> = marker("-----BEGIN ", label);
    let end: Vec<char> = marker("-----END ", label);
    let n: usize = chars.len();
    let start: usize = match find(&chars, &begin) {
        Some(i) => i + begin.len(),
        None => {
            return Err(tls_error("PEM missing ", label, " header"));
        },
    };
    let stop: usize = match find(&chars, &end) {
        Some(j) => j,
        None => {
            return Err(tls_error("PEM missing ", label, " footer"));
        },
    };
    let ghost section = chars@.subrange(start as int, stop as int);
    let mut body = String::new();
    let mut i: usize = start;
    assert(section.take(0) =~= Seq::empty());
    while i < stop
        invariant
            start <= i <= stop <= chars@.len(),
            section == chars@.subrange(start as int, stop as int),
            body@ == without_white(section.take(i - start)),
        decreases stop - i,
    {
        proof {
            let t = section.take(i - start + 1);
            assert(t.drop_last() =~= section.take(i - start));
            assert(t.last() == chars@[i as int]);
        }
        if !white(chars[i]) {
            body.push(chars[i]);
        }
        i += 1;
    }
    assert(section.take(i - start) =~= section);
    match base64_decode(body.as_str()) {
        Ok(data) => Ok(data),
        Err(text) => Err(tls_error("PEM base64 decode: ", text.as_str(), "")),
    }
}

/// Text in lines of 64 characters.
pub open spec fn in_lines(s: Seq<char>) -> Seq<char>
    decreases s.len(),
{
    if s.len() == 0 {
        Seq::empty()
    } else if s.len() <= 64 {
        s.push('\n')
    } else {
        s.take(64).push('\n') + in_lines(s.skip(64))
    }
}

/// Bytes as a PEM section.
pub open spec fn pem_text(der: Seq<u8>, label: Seq<char>) -> Seq<char> {
    begin_marker(label) + seq!['\n'] + in_lines(base64_encoded(der)) + end_marker(label) + seq![
        '\n',
    ]
}

/// Writes bytes as a PEM section. What comes out reads back as the bytes.
pub fn der_to_pem(der: &[u8], label: &str) -> (r: String)
    requires
        der@.len() <= usize::MAX / 4,
    ensures
        r@ == pem_text(der@, label@),
        !label@.contains('-') ==> pem_ordered(r@, label@) && (pem_body(r@, label@) matches Some(b)
            && base64_decoded(b) == Some(der@)),
{
    let b64: String = base64_encode(der);
    let chars: Vec<char> = chars_of(b64.as_str());
    let mut out = "-----BEGIN ".to_owned();
    out.append(label);
    out.append("-----");
    out.push('\n');
    let ghost head = out@;
    assert(head =~= begin_marker(label@) + seq!['\n']);
    let n: usize = chars.len();
    let mut i: usize = 0;
    assert(chars@.skip(0) =~= chars@);
    assert(head + in_lines(chars@) =~= out@ + in_lines(chars@.skip(0)));
    while i < n
        invariant
            n == chars@.len(),
            i <= n,
            head + in_lines(chars@) == out@ + in_lines(chars@.skip(i as int)),
        decreases n - i,
    {
        let end: usize = if n - i > 64 {
            i + 64
        } else {
            n
        };
        let ghost rest = chars@.skip(i as int);
        let ghost before = out@;
        out.append(string_of(vstd::slice::slice_subrange(chars.as_slice(), i, end)).as_str());
        out.push('\n');
        proof {
            let line = chars@.subrange(i as int, end as int);
            assert(out@ =~= before + line.push('\n'));
            if n - i > 64 {
                assert(line =~= rest.take(64));
                assert(rest.skip(64) =~= chars@.skip(end as int));
            } else {
                assert(line =~= rest);
                assert(chars@.skip(end as int) =~= Seq::empty());
            }
            assert(before + in_lines(rest) =~= out@ + in_lines(chars@.skip(end as int)));
        }
        i = end;
    }
    proof {
        assert(chars@.skip(i as int) =~= Seq::empty());
        assert(out@ =~= head + in_lines(chars@));
    }
    out.append("-----END ");
    out.append(label);
    out.append("-----");
    out.push('\n');
    proof {
        assert(out@ =~= pem_text(der@, label@));
        if !label@.contains('-') {
            lemma_pem_reads_back(chars@, label@);
            assert(begin_marker(label@) + seq!['\n'] + in_lines(chars@) + end_marker(label@)
                + seq!['\n'] =~= out@);
        }
    }
    out
}

proof fn lemma_base64_char(c: char)
    requires
        is_base64_char(c),
    ensures
        !is_white(c),
        c != '-',
        c != '\n',
{
}

proof fn lemma_without_white_concat(a: Seq<char>, b: Seq<char>)
    ensures
        without_white(a + b) == without_white(a) + without_white(b),
    decreases b.len(),
{
    if b.len() == 0 {
        assert(a + b =~= a);
        assert(without_white(a) + without_white(b) =~= without_white(a));
    } else {
        lemma_without_white_concat(a, b.drop_last());
        assert((a + b).drop_last() =~= a + b.drop_last());
        assert((a + b).last() == b.last());
        assert(without_white(a + b) =~= without_white(a) + without_white(b));
    }
}

proof fn lemma_without_white_keeps(s: Seq<char>)
    requires
        forall|i: int| 0 <= i < s.len() ==> is_base64_char(#[trigger] s[i]),
    ensures
        without_white(s) == s,
    decreases s.len(),
{
    if s.len() > 0 {
        lemma_base64_char(s[s.len() - 1]);
        lemma_without_white_keeps(s.drop_last());
        assert(without_white(s) =~= s);
    } else {
        assert(without_white(s) =~= s);
    }
}

proof fn lemma_lines(s: Seq<char>)
    requires
        forall|i: int| 0 <= i < s.len() ==> is_base64_char(#[trigger] s[i]),
    ensures
        without_white(in_lines(s)) == s,
        forall|i: int|
            0 <= i < in_lines(s).len() ==> (#[trigger] in_lines(s)[i]) == '\n' || is_base64_char(
                in_lines(s)[i],
            ),
    decreases s.len(),
{
    if s.len() == 0 {
        assert(without_white(in_lines(s)) =~= s);
    } else {
        let line = if s.len() <= 64 {
            s
        } else {
            s.take(64)
        };
        lemma_without_white_keeps(line);
        assert(line.push('\n').drop_last() =~= line);
        assert(is_white('\n'));
        assert(without_white(line.push('\n')) == line);
        if s.len() > 64 {
            let rest = s.skip(64);
            lemma_lines(rest);
            lemma_without_white_concat(line.push('\n'), in_lines(rest));
            assert(line + rest =~= s);
            assert forall|i: int| 0 <= i < in_lines(s).len() implies (#[trigger] in_lines(s)[i])
                == '\n' || is_base64_char(in_lines(s)[i]) by {
                if i < 64 {
                    assert(in_lines(s)[i] == s[i]);
                } else if i > 64 {
                    assert(in_lines(s)[i] == in_lines(rest)[i - 65]);
                }
            }
        }
    }
}

proof fn lemma_find_at(hay: Seq<char>, needle: Seq<char>, from: nat, at: nat)
    requires
        from <= at,
        stands_at(hay, needle, at as int),
        forall|i: int| from <= i < at ==> !stands_at(hay, needle, i),
    ensures
        find_from(hay, needle, from) == Some(at),
    decreases at - from,
{
    if from < at {
        lemma_find_at(hay, needle, from + 1, at);
    }
}

proof fn lemma_markers(label: Seq<char>)
    ensures
        begin_marker(label).len() == 16 + label.len(),
        end_marker(label).len() == 14 + label.len(),
        begin_marker(label)[5] == 'B',
        begin_marker(label)[6] == 'E',
        begin_marker(label)[7] == 'G',
        begin_marker(label)[8] == 'I',
        begin_marker(label)[9] == 'N',
        begin_marker(label)[10] == ' ',
        forall|i: int| 0 <= i < label.len() ==> #[trigger] begin_marker(label)[11 + i] == label[i],
        forall|i: int| 0 <= i < 5 ==> #[trigger] end_marker(label)[i] == '-',
        end_marker(label)[5] == 'E',
{
    reveal_strlit("-----BEGIN ");
    reveal_strlit("-----END ");
    reveal_strlit("-----");
}

/// The closing marker does not stand before the place it was put at.
proof fn lemma_no_early_end(pem: Seq<char>, lines: Seq<char>, label: Seq<char>, p: int)
    requires
        pem == begin_marker(label) + seq!['\n'] + lines + end_marker(label) + seq!['\n'],
        forall|i: int| 0 <= i < lines.len() ==> (#[trigger] lines[i]) == '\n' || is_base64_char(lines[i]),
        !label.contains('-'),
        0 <= p < 17 + label.len() + lines.len(),
    ensures
        !stands_at(pem, end_marker(label), p),
{
    lemma_markers(label);
    let begin = begin_marker(label);
    let end = end_marker(label);
    let n = label.len() as int;
    if stands_at(pem, end, p) {
        let found = pem.subrange(p, p + end.len());
        assert(found == end);
        assert(found[0] == '-' && found[4] == '-' && found[5] == 'E');
        if p == 0 {
            assert(found[5] == pem[5]);
            assert(pem[5] == begin[5]);
        } else if p < 5 {
            assert(found[4] == pem[p + 4]);
            assert(pem[p + 4] == begin[p + 4]);
        } else if p < 11 {
            assert(found[0] == pem[p]);
            assert(pem[p] == begin[p]);
        } else if p < 11 + n {
            assert(found[0] == pem[p]);
            assert(pem[p] == begin[11 + (p - 11)]);
            assert(label.contains(label[p - 11]));
        } else if p < 16 + n {
            let j = 16 + n - p;
            assert(found[j] == pem[p + j]);
            assert(pem[16 + n] == '\n');
            if j < 5 {
                assert(end[j] == '-');
            }
        } else if p == 16 + n {
            assert(found[0] == pem[p]);
            assert(pem[16 + n] == '\n');
        } else {
            assert(found[0] == pem[p]);
            let c = lines[p - 17 - n];
            assert(pem[p] == c);
            if c != '\n' {
                lemma_base64_char(c);
            }
        }
    }
}

/// A section around base64 text is found where it was put.
proof fn lemma_pem_reads_back(b64: Seq<char>, label: Seq<char>)
    requires
        forall|i: int| 0 <= i < b64.len() ==> is_base64_char(#[trigger] b64[i]),
        !label.contains('-'),
    ensures
        ({
            let pem = begin_marker(label) + seq!['\n'] + in_lines(b64) + end_marker(label) + seq![
                '\n',
            ];
            pem_ordered(pem, label) && pem_body(pem, label) == Some(b64)
        }),
{
    let begin = begin_marker(label);
    let end = end_marker(label);
    let lines = in_lines(b64);
    let pem = begin + seq!['\n'] + lines + end + seq!['\n'];
    let stop = (begin.len() + 1 + lines.len()) as nat;
    lemma_markers(label);
    lemma_lines(b64);
    assert(pem.subrange(0, begin.len() as int) =~= begin);
    lemma_find_at(pem, begin, 0, 0);
    assert(pem.subrange(stop as int, (stop + end.len()) as int) =~= end);
    assert forall|p: int| 0 <= p < stop implies !stands_at(pem, end, p) by {
        lemma_no_early_end(pem, lines, label, p);
    }
    lemma_find_at(pem, end, 0, stop);
    let section = pem.subrange(begin.len() as int, stop as int);
    let newline = seq!['\n'];
    assert(section =~= newline + lines);
    lemma_without_white_concat(newline, lines);
    assert(newline.drop_last() =~= Seq::<char>::empty());
    assert(is_white('\n'));
    assert(without_white(newline.drop_last()) =~= Seq::<char>::empty());
    assert(without_white(newline) =~= Seq::<char>::empty());
    assert(without_white(section) =~= b64);
}

/// The fingerprint of a certificate: the SHA-256 of its DER form.
pub fn fingerprint_of(cert_der: &[u8]) -> (r: Fingerprint)
    ensures
        r@ == sha256_of(cert_der@),
{
    sha256(cert_der)
}

/// The DER form of the certificate that `rcgen` makes for an Ed25519 key in
/// PKCS#8 form, a host name and a common name; `None` where it reports an
/// error. Validity and serial number are fixed or derived from the key, and
/// Ed25519 signs without chance, so the certificate depends on these alone.
pub uninterp spec fn certificate_of(
    key: Seq<u8>,
    host: Seq<char>,
    common_name: Seq<char>,
) -> Option<Seq<u8>>;

/// `KeyPair::generate_for` Ed25519: the PKCS#8 form of a fresh key pair. Any
/// key can come, so nothing is claimed of it, nor of when it fails.
#[verifier::external_body]
fn fresh_key() -> core::result::Result<Vec<u8>, String> {
    rcgen::KeyPair::generate_for(&rcgen::PKCS_ED25519)
        .map(|key| key.serialize_der())
        .map_err(|e| e.to_string())
}

/// `CertificateParams::self_signed`: the certificate of an Ed25519 key, signed
/// with the key itself. What the text of an error says is left open.
#[verifier::external_body]
fn self_signed(key: &[u8], host: &str, common_name: &str) -> (r: core::result::Result<
    Vec<u8>,
    String,
>)
    ensures
        r is Ok <==> certificate_of(key@, host@, common_name@) is Some,
        r matches Ok(cert) ==> certificate_of(key@, host@, common_name@) == Some(cert@),
{
    let key = PrivatePkcs8KeyDer::from(key.to_vec());
    let key = rcgen::KeyPair::from_pkcs8_der_and_sign_algo(&key, &rcgen::PKCS_ED25519)
        .map_err(|e| e.to_string())?;
    let mut params = rcgen::CertificateParams::new(vec![host.to_string()])
        .map_err(|e| e.to_string())?;
    params.distinguished_name = rcgen::DistinguishedName::new();
    params.distinguished_name.push(rcgen::DnType::CommonName, common_name);
    let cert = params.self_signed(&key).map_err(|e| e.to_string())?;
    Ok(cert.der().to_vec())
}

/// A device's identity.
#[derive(Debug, Clone)]
pub struct Identity {
    /// The certificate in DER form.
    pub cert_der: Vec<u8>,
    /// The private key in PKCS#8 DER form.
    pub key_der: Vec<u8>,
    pub fingerprint: Fingerprint,
}

impl Identity {
    /// The fingerprint is that of the certificate.
    pub open spec fn wf(&self) -> bool {
        self.fingerprint@ == sha256_of(self.cert_der@)
    }

    /// The identity of a certificate and its key.
    pub fn from_der(cert_der: Vec<u8>, key_der: Vec<u8>) -> (r: Self)
        ensures
            r.wf(),
            r.cert_der == cert_der,
            r.key_der == key_der,
    {
        let fingerprint: Fingerprint = fingerprint_of(cert_der.as_slice());
        Identity { cert_der, key_der, fingerprint }
    }

    /// The identity of a key: with the certificate that the key signs for
    /// itself.
    pub fn from_key(key_der: Vec<u8>) -> (r: Result<Self>)
        ensures
            match certificate_of(key_der@, "hyx"@, "hyx device"@) {
                Some(cert) => r matches Ok(id) && id.wf() && id.key_der == key_der && id.cert_der@
                    == cert,
                None => r matches Err(Error::Tls(m)) && stands_at(m@, "self-sign: "@, 0),
            },
    {
        match self_signed(key_der.as_slice(), "hyx", "hyx device") {
            Ok(cert) => Ok(Self::from_der(cert, key_der)),
            Err(text) => Err(tls_error("self-sign: ", text.as_str(), "")),
        }
    }

    /// A fresh identity: a new key and the certificate it signs for itself.
    pub fn generate() -> (r: Result<Self>)
        ensures
            r matches Ok(id) ==> id.wf() && certificate_of(id.key_der@, "hyx"@, "hyx device"@)
                == Some(id.cert_der@),
            r matches Err(e) ==> e matches Error::Tls(m) && (stands_at(
                m@,
                "keypair generation failed: "@,
                0,
            ) || stands_at(m@, "self-sign: "@, 0)),
    {
        match fresh_key() {
            Ok(key) => Self::from_key(key),
            Err(text) => Err(tls_error("keypair generation failed: ", text.as_str(), "")),
        }
    }

    /// The identity that was stored as two PEM texts.
    pub fn from_pem(key_pem: &str, cert_pem: &str) -> (r: Result<Self>)
        requires
            pem_ordered(key_pem@, "PRIVATE KEY"@),
            pem_ordered(cert_pem@, "CERTIFICATE"@),
        ensures
            match (pem_data(key_pem@, "PRIVATE KEY"@), pem_data(cert_pem@, "CERTIFICATE"@)) {
                (Some(key), Some(cert)) => r matches Ok(id) && id.wf() && id.key_der@ == key
                    && id.cert_der@ == cert,
                (None, _) => r matches Err(e) && pem_fault(key_pem@, "PRIVATE KEY"@, e),
                (Some(_), None) => r matches Err(e) && pem_fault(cert_pem@, "CERTIFICATE"@, e),
            },
    {
        let key: Vec<u8> = match pem_to_der(key_pem, "PRIVATE KEY") {
            Ok(der) => der,
            Err(e) => {
                return Err(e);
            },
        };
        match pem_to_der(cert_pem, "CERTIFICATE") {
            Ok(cert) => Ok(Self::from_der(cert, key)),
            Err(e) => Err(e),
        }
    }

    /// The two PEM texts to store: key and certificate. Reading them gives the
    /// identity back.
    pub fn to_pem(&self) -> (r: (String, String))
        requires
            self.key_der@.len() <= usize::MAX / 4,
            self.cert_der@.len() <= usize::MAX / 4,
        ensures
            r.0@ == pem_text(self.key_der@, "PRIVATE KEY"@),
            r.1@ == pem_text(self.cert_der@, "CERTIFICATE"@),
            pem_ordered(r.0@, "PRIVATE KEY"@),
            pem_ordered(r.1@, "CERTIFICATE"@),
            pem_body(r.0@, "PRIVATE KEY"@) matches Some(k) && base64_decoded(k) == Some(
                self.key_der@,
            ),
            pem_body(r.1@, "CERTIFICATE"@) matches Some(c) && base64_decoded(c) == Some(
                self.cert_der@,
            ),
    {
        proof {
            reveal_strlit("PRIVATE KEY");
            reveal_strlit("CERTIFICATE");
        }
        (
            der_to_pem(self.key_der.as_slice(), "PRIVATE KEY"),
            der_to_pem(self.cert_der.as_slice(), "CERTIFICATE"),
        )
    }

    /// The fingerprint by which others know this device.
    pub fn fingerprint(&self) -> (r: Fingerprint)
        ensures
            r == self.fingerprint,
    {
        self.fingerprint
    }

    /// The fingerprint in hexadecimal.
    pub fn fingerprint_hex(&self) -> (r: String)
        ensures
            r@ == hex_chars(self.fingerprint@),
    {
        hex_encode(self.fingerprint.as_slice())
    }
}

/// A section that was written is read back: whatever text of base64 stands in
/// it, in lines of 64 characters, comes out as it went in, and with it the bytes
/// that it stands for.
pub proof fn law_written_section_reads_back(b64: Seq<char>, label: Seq<char>)
    requires
        forall|i: int| 0 <= i < b64.len() ==> is_base64_char(#[trigger] b64[i]),
        !label.contains('-'),
    ensures
        ({
            let pem = "-----BEGIN "@ + label + "-----"@ + seq!['\n'] + in_lines(b64) + "-----END "@
                + label + "-----"@ + seq!['\n'];
            &&& pem_ordered(pem, label)
            &&& pem_body(pem, label) == Some(b64)
            &&& pem_data(pem, label) == base64_decoded(b64)
        }),
{
    lemma_pem_reads_back(b64, label);
    let pem = "-----BEGIN "@ + label + "-----"@ + seq!['\n'] + in_lines(b64) + "-----END "@ + label
        + "-----"@ + seq!['\n'];
    assert(pem =~= begin_marker(label) + seq!['\n'] + in_lines(b64) + end_marker(label) + seq![
        '\n',
    ]);
}

/// Lines are 64 characters long, but for the last, which has what is left, and
/// each ends in a line break; nothing else is added.
pub proof fn law_lines_have_sixty_four_characters(s: Seq<char>)
    ensures
        s.len() == 0 ==> in_lines(s).len() == 0,
        s.len() > 0 ==> in_lines(s).len() == s.len() + (s.len() + 63) / 64,
        s.len() > 64 ==> in_lines(s).take(65) == s.take(64).push('\n') && in_lines(s).skip(65)
            == in_lines(s.skip(64)),
        0 < s.len() <= 64 ==> in_lines(s) == s.push('\n'),
    decreases s.len(),
{
    if s.len() > 64 {
        law_lines_have_sixty_four_characters(s.skip(64));
        assert(in_lines(s).take(65) =~= s.take(64).push('\n'));
        assert(in_lines(s).skip(65) =~= in_lines(s.skip(64)));
    }
}

/// An identity survives being stored: what is read back from the two texts has
/// the same key, the same certificate and so the same fingerprint.
pub proof fn law_identity_survives_being_stored(
    id: Identity,
    key_pem: &str,
    cert_pem: &str,
    texts: (String, String),
    r: Result<Identity>,
)
    requires
        id.wf(),
        id.key_der@.len() <= usize::MAX / 4,
        id.cert_der@.len() <= usize::MAX / 4,
        call_ensures(Identity::to_pem, (&id,), texts),
        key_pem@ == texts.0@,
        cert_pem@ == texts.1@,
        call_ensures(Identity::from_pem, (key_pem, cert_pem), r),
    ensures
        r is Ok,
        r->Ok_0.key_der@ == id.key_der@,
        r->Ok_0.cert_der@ == id.cert_der@,
        r->Ok_0.fingerprint@ == id.fingerprint@,
{
}

/// The fingerprint of a device is the digest of its certificate, and the text
/// shown for it has all of it: sixty-four hexadecimal digits that read as it.
pub proof fn law_shown_fingerprint_reads_as_the_digest(
    id: Identity,
    cert: Vec<u8>,
    key: Vec<u8>,
    text: String,
)
    requires
        call_ensures(Identity::from_der, (cert, key), id),
        call_ensures(Identity::fingerprint_hex, (&id,), text),
    ensures
        id.fingerprint@ == sha256_of(cert@),
        text@.len() == 64,
        fingerprint_written(text@) == Some(sha256_of(cert@)),
{
    law_fingerprints_are_read_back(id.fingerprint@, text@);
}

} // verus!
