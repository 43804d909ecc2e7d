//! Text building blocks: decimal numbers, string concatenation and comparison.

use vstd::prelude::*;
use vstd::string::*;

verus! {

/// `String::push` appends exactly one character.
pub assume_specification[ String::push ](s: &mut String, ch: char)
    ensures
        final(s)@ == old(s)@.push(ch),
;

/// The character of a decimal digit.
pub open spec fn digit(d: nat) -> char {
    (48 + d) as u8 as char
}

/// A natural number in decimal, without leading zeros.
pub open spec fn decimal(n: nat) -> Seq<char>
    decreases n,
{
    if n < 10 {
        seq![digit(n)]
    } else {
        decimal(n / 10).push(digit(n % 10))
    }
}

/// Appends `n` in decimal.
pub fn push_decimal(s: &mut String, n: u64)
    ensures
        final(s)@ == old(s)@ + decimal(n as nat),
    decreases n,
{
    if n >= 10 {
        push_decimal(s, n / 10);
    }
    let c: char = (48u8 + (n % 10) as u8) as char;
    s.push(c);
    assert(s@ =~= old(s)@ + decimal(n as nat));
}

/// Appends `n` as two decimal digits, zero padded.
pub fn push_decimal2(s: &mut String, n: u64)
    requires
        n < 100,
    ensures
        final(s)@ == old(s)@.push(digit((n / 10) as nat)).push(digit((n % 10) as nat)),
{
    let hi: char = (48u8 + (n / 10) as u8) as char;
    let lo: char = (48u8 + (n % 10) as u8) as char;
    s.push(hi);
    s.push(lo);
}

/// Whether two strings hold the same characters.
pub fn str_eq(a: &str, b: &str) -> (r: bool)
    ensures
        r == (a@ == b@),
{
    let n: usize = a.unicode_len();
    if n != b.unicode_len() {
        return false;
    }
    let mut i: usize = 0;
    while i < n
        invariant
            n == a@.len(),
            n == b@.len(),
            i <= n,
            forall|j: int| 0 <= j < i ==> a@[j] == b@[j],
        decreases n - i,
    {
        if a.get_char(i) != b.get_char(i) {
            return false;
        }
        i += 1;
    }
    assert(a@ =~= b@);
    true
}

/// Whether two byte strings are equal.
pub fn bytes_eq(a: &[u8], b: &[u8]) -> (r: bool)
    ensures
        r == (a@ == b@),
{
    if a.len() != b.len() {
        return false;
    }
    let mut i: usize = 0;
    while i < a.len()
        invariant
            a@.len() == b@.len(),
            i <= a@.len(),
            forall|j: int| 0 <= j < i ==> a@[j] == b@[j],
        decreases a@.len() - i,
    {
        if a[i] != b[i] {
            return false;
        }
        i += 1;
    }
    assert(a@ =~= b@);
    true
}

/// Copies a byte string.
pub fn bytes_copy(a: &[u8]) -> (r: Vec<u8>)
    ensures
        r@ == a@,
{
    let mut out: Vec<u8> = Vec::new();
    out.extend_from_slice(a);
    assert(out@ =~= a@);
    out
}

/// The characters of a string.
pub fn chars_of(s: &str) -> (r: Vec<char>)
    ensures
        r@ == s@,
{
    broadcast use vstd::string::group_string_axioms;

    let mut out: Vec<char> = Vec::new();
    for c in it: s.chars()
        invariant
            it.seq() == s@,
            out@ == s@.take(it.index() as int),
    {
        out.push(c);
        assert(out@ =~= s@.take(it.index() + 1));
    }
    assert(out@ =~= s@);
    out
}

/// A string of the given characters.
pub fn string_of(chars: &[char]) -> (r: String)
    ensures
        r@ == chars@,
{
    let mut s = String::new();
    let mut i: usize = 0;
    assert(s@ =~= chars@.take(0));
    while i < chars.len()
        invariant
            i <= chars@.len(),
            s@ == chars@.take(i as int),
        decreases chars@.len() - i,
    {
        s.push(chars[i]);
        assert(s@ =~= chars@.take(i + 1));
        i += 1;
    }
    assert(chars@.take(i as int) =~= chars@);
    s
}

/// Copies a string.
pub fn string_copy(s: &str) -> (r: String)
    ensures
        r@ == s@,
{
    s.to_owned()
}

/// The characters that Unicode lists as white space.
pub open spec fn is_white(c: char) -> bool {
    let u = c as u32;
    (9 <= u && u <= 13) || u == 0x20 || u == 0x85 || u == 0xA0 || u == 0x1680 || (0x2000 <= u && u
        <= 0x200A) || u == 0x2028 || u == 0x2029 || u == 0x202F || u == 0x205F || u == 0x3000
}

pub fn white(c: char) -> (r: bool)
    ensures
        r == is_white(c),
{
    let u: u32 = c as u32;
    (9 <= u && u <= 13) || u == 0x20 || u == 0x85 || u == 0xA0 || u == 0x1680 || (0x2000 <= u && u
        <= 0x200A) || u == 0x2028 || u == 0x2029 || u == 0x202F || u == 0x205F || u == 0x3000
}

/// Without white space at the start.
pub open spec fn trimmed_start(s: Seq<char>) -> Seq<char>
    decreases s.len(),
{
    if s.len() > 0 && is_white(s[0]) {
        trimmed_start(s.skip(1))
    } else {
        s
    }
}

/// Without white space at the end.
pub open spec fn trimmed_end(s: Seq<char>) -> Seq<char>
    decreases s.len(),
{
    if s.len() > 0 && is_white(s.last()) {
        trimmed_end(s.drop_last())
    } else {
        s
    }
}

/// Without white space at either end.
pub open spec fn trimmed(s: Seq<char>) -> Seq<char> {
    trimmed_end(trimmed_start(s))
}

/// Only white space.
pub open spec fn all_white(s: Seq<char>) -> bool {
    forall|i: int| 0 <= i < s.len() ==> is_white(#[trigger] s[i])
}

proof fn lemma_white_start(a: Seq<char>, s: Seq<char>)
    requires
        all_white(a),
    ensures
        trimmed_start(a + s) == trimmed_start(s),
    decreases a.len(),
{
    if a.len() == 0 {
        assert(a + s =~= s);
    } else {
        assert(is_white(a[0]));
        let rest = a.skip(1);
        assert forall|i: int| 0 <= i < rest.len() implies is_white(#[trigger] rest[i]) by {
            assert(rest[i] == a[i + 1]);
        }
        lemma_white_start(rest, s);
        assert((a + s).skip(1) =~= rest + s);
    }
}

proof fn lemma_white_end(s: Seq<char>, b: Seq<char>)
    requires
        all_white(b),
    ensures
        trimmed_end(s + b) == trimmed_end(s),
    decreases b.len(),
{
    if b.len() == 0 {
        assert(s + b =~= s);
    } else {
        assert(is_white(b[b.len() - 1]));
        assert((s + b).drop_last() =~= s + b.drop_last());
        lemma_white_end(s, b.drop_last());
    }
}

proof fn lemma_white_behind(s: Seq<char>, b: Seq<char>)
    requires
        all_white(b),
    ensures
        trimmed(s + b) == trimmed(s),
    decreases s.len(),
{
    if s.len() == 0 {
        assert(s + b =~= b + Seq::empty());
        lemma_white_start(b, Seq::empty());
        assert(s =~= Seq::empty());
    } else if is_white(s[0]) {
        assert((s + b).skip(1) =~= s.skip(1) + b);
        lemma_white_behind(s.skip(1), b);
    } else {
        lemma_white_end(s, b);
    }
}

/// White space around a text does not change what is left of it.
pub proof fn law_outer_white_space_is_dropped(a: Seq<char>, s: Seq<char>, b: Seq<char>)
    requires
        all_white(a),
        all_white(b),
    ensures
        trimmed(a + s + b) == trimmed(s),
        trimmed(trimmed(s)) == trimmed(s),
{
    lemma_white_behind(a + s, b);
    lemma_white_start(a, s);
    lemma_start_is_not_white(s);
    lemma_trimmed_stays(trimmed_start(s));
}

proof fn lemma_start_is_not_white(s: Seq<char>)
    ensures
        trimmed_start(s).len() > 0 ==> !is_white(trimmed_start(s)[0]),
    decreases s.len(),
{
    if s.len() > 0 && is_white(s[0]) {
        lemma_start_is_not_white(s.skip(1));
    }
}

proof fn lemma_trimmed_stays(s: Seq<char>)
    requires
        s.len() > 0 ==> !is_white(s[0]),
    ensures
        trimmed(trimmed_end(s)) == trimmed_end(s),
    decreases s.len(),
{
    if s.len() > 0 && is_white(s.last()) {
        lemma_trimmed_stays(s.drop_last());
    }
}

/// Removes white space at either end.
pub fn trim(s: &str) -> (r: String)
    ensures
        r@ == trimmed(s@),
{
    let chars: Vec<char> = chars_of(s);
    let n: usize = chars.len();
    let mut i: usize = 0;
    assert(chars@.skip(0) =~= chars@);
    while i < n && white(chars[i])
        invariant
            n == chars@.len(),
            i <= n,
            trimmed_start(chars@) == trimmed_start(chars@.skip(i as int)),
        decreases n - i,
    {
        assert(chars@.skip(i as int).skip(1) =~= chars@.skip(i + 1));
        i += 1;
    }
    let ghost rest = chars@.skip(i as int);
    assert(trimmed_start(chars@) == rest);
    let mut j: usize = n;
    assert(chars@.subrange(i as int, j as int) =~= rest);
    while j > i && white(chars[j - 1])
        invariant
            n == chars@.len(),
            i <= j <= n,
            trimmed_end(rest) == trimmed_end(chars@.subrange(i as int, j as int)),
        decreases j,
    {
        assert(chars@.subrange(i as int, j as int).drop_last() =~= chars@.subrange(
            i as int,
            j - 1,
        ));
        j -= 1;
    }
    string_of(vstd::slice::slice_subrange(chars.as_slice(), i, j))
}

/// What `str::to_lowercase` makes of a string.
pub uninterp spec fn lowercase_of(s: Seq<char>) -> Seq<char>;

/// `str::to_lowercase`: the string in lower case, by the Unicode tables of the
/// standard library.
#[verifier::external_body]
pub(crate) fn to_lowercase(s: &str) -> (r: String)
    ensures
        r@ == lowercase_of(s@),
{
    s.to_lowercase()
}

/// A letter of the ASCII alphabet in lower case; any other character as it is.
pub open spec fn ascii_lower(c: char) -> char {
    if 'A' <= c && c <= 'Z' {
        (c as u32 + 32) as u8 as char
    } else {
        c
    }
}

/// A string with its ASCII letters in lower case.
pub open spec fn ascii_lowered(s: Seq<char>) -> Seq<char> {
    s.map_values(|c: char| ascii_lower(c))
}

/// A string with its ASCII letters in lower case, as characters.
pub fn to_ascii_lower(s: &str) -> (r: Vec<char>)
    ensures
        r@ == ascii_lowered(s@),
{
    let chars: Vec<char> = chars_of(s);
    let mut out: Vec<char> = Vec::new();
    let mut i: usize = 0;
    while i < chars.len()
        invariant
            chars@ == s@,
            i <= chars@.len(),
            out@.len() == i,
            forall|j: int| 0 <= j < i ==> #[trigger] out@[j] == ascii_lower(s@[j]),
        decreases chars@.len() - i,
    {
        let c: char = chars[i];
        if 'A' <= c && c <= 'Z' {
            out.push((c as u8 + 32) as char);
        } else {
            out.push(c);
        }
        i += 1;
    }
    assert(out@ =~= ascii_lowered(s@));
    out
}

/// Whether `needle` stands at position `i`.
pub open spec fn stands_at(hay: Seq<char>, needle: Seq<char>, i: int) -> bool {
    0 <= i && i + needle.len() <= hay.len() && hay.subrange(i, i + needle.len()) == needle
}

/// The first position, from `from` on, at which `needle` stands.
pub open spec fn find_from(hay: Seq<char>, needle: Seq<char>, from: nat) -> Option<nat>
    decreases hay.len() + 1 - from,
{
    if from > hay.len() {
        None
    } else if stands_at(hay, needle, from as int) {
        Some(from)
    } else {
        find_from(hay, needle, from + 1)
    }
}

/// Whether `needle` stands at position `i`.
pub fn stands_here(hay: &Vec<char>, needle: &Vec<char>, i: usize) -> (r: bool)
    requires
        i <= hay@.len(),
    ensures
        r == stands_at(hay@, needle@, i as int),
{
    if needle.len() > hay.len() - i {
        return false;
    }
    let n: usize = hay.len();
    let mut j: usize = 0;
    while j < needle.len()
        invariant
            n == hay@.len(),
            i + needle@.len() <= n,
            j <= needle@.len(),
            forall|k: int| 0 <= k < j ==> hay@[i + k] == needle@[k],
        decreases needle@.len() - j,
    {
        if hay[i + j] != needle[j] {
            assert(hay@.subrange(i as int, i + needle@.len())[j as int] == hay@[i + j]);
            return false;
        }
        j += 1;
    }
    assert(hay@.subrange(i as int, i + needle@.len()) =~= needle@);
    true
}

/// The first position at which `needle` stands.
pub fn find(hay: &Vec<char>, needle: &Vec<char>) -> (r: Option<usize>)
    ensures
        match find_from(hay@, needle@, 0) {
            Some(i) => r matches Some(k) && k == i && i + needle@.len() <= hay@.len(),
            None => r is None,
        },
{
    let mut i: usize = 0;
    loop
        invariant
            i <= hay@.len(),
            find_from(hay@, needle@, 0) == find_from(hay@, needle@, i as nat),
        decreases hay@.len() - i,
    {
        if stands_here(hay, needle, i) {
            return Some(i);
        }
        if i >= hay.len() {
            assert(find_from(hay@, needle@, (i + 1) as nat) is None);
            return None;
        }
        i += 1;
    }
}

/// Trimming takes away white space from both ends and nothing else: what is left
/// neither begins nor ends with white space, and what was taken is white space.
pub proof fn law_trimming_takes_only_white_space(s: Seq<char>)
    ensures
        exists|a: Seq<char>, b: Seq<char>|
            s == #[trigger] (a + trimmed(s) + b) && all_white(a) && all_white(b),
        trimmed(s).len() > 0 ==> !is_white(trimmed(s)[0]) && !is_white(trimmed(s).last()),
{
    lemma_start_taken(s);
    let t = trimmed_start(s);
    lemma_end_taken(t);
    let a = choose|a: Seq<char>| s == #[trigger] (a + t) && all_white(a);
    let b = choose|b: Seq<char>| t == #[trigger] (trimmed(s) + b) && all_white(b);
    assert(s =~= a + trimmed(s) + b);
    if trimmed(s).len() > 0 {
        assert(trimmed(s)[0] == t[0]);
    }
}

proof fn lemma_start_taken(s: Seq<char>)
    ensures
        exists|a: Seq<char>| s == #[trigger] (a + trimmed_start(s)) && all_white(a),
        trimmed_start(s).len() > 0 ==> !is_white(trimmed_start(s)[0]),
    decreases s.len(),
{
    if s.len() > 0 && is_white(s[0]) {
        lemma_start_taken(s.skip(1));
        let t = trimmed_start(s.skip(1));
        assert(t == trimmed_start(s));
        let a = choose|a: Seq<char>| s.skip(1) == #[trigger] (a + t) && all_white(a);
        assert(seq![s[0]] + s.skip(1) =~= s);
        let more = seq![s[0]] + a;
        assert(s =~= more + t);
        assert forall|i: int| 0 <= i < more.len() implies is_white(#[trigger] more[i]) by {
            if i > 0 {
                assert(more[i] == a[i - 1]);
            }
        }
        assert(s == more + trimmed_start(s));
    } else {
        let none = Seq::<char>::empty();
        assert(s =~= none + s);
        assert(all_white(none));
        assert(s == none + trimmed_start(s));
    }
}

proof fn lemma_end_taken(s: Seq<char>)
    ensures
        exists|b: Seq<char>| s == #[trigger] (trimmed_end(s) + b) && all_white(b),
        trimmed_end(s).len() > 0 ==> !is_white(trimmed_end(s).last()),
    decreases s.len(),
{
    if s.len() > 0 && is_white(s.last()) {
        lemma_end_taken(s.drop_last());
        let t = trimmed_end(s.drop_last());
        assert(t == trimmed_end(s));
        let b = choose|b: Seq<char>| s.drop_last() == #[trigger] (t + b) && all_white(b);
        assert(s.drop_last().push(s.last()) =~= s);
        let more = b.push(s.last());
        assert(s =~= t + more);
        assert forall|i: int| 0 <= i < more.len() implies is_white(#[trigger] more[i]) by {
            if i < b.len() {
                assert(more[i] == b[i]);
            }
        }
        assert(s == trimmed_end(s) + more);
    } else {
        let none = Seq::<char>::empty();
        assert(s =~= s + none);
        assert(all_white(none));
        assert(s == trimmed_end(s) + none);
    }
}

/// White space is what leaves no mark: among the characters up to the tilde the
/// space and the five from tab to carriage return, and no letter, digit or sign.
pub proof fn law_white_space_leaves_no_mark(c: char)
    requires
        c <= '~',
    ensures
        is_white(c) <==> c == ' ' || c == '\t' || c == '\n' || c == '\r' || c as u32 == 11 || c as u32
            == 12,
{
}

} // verus!
