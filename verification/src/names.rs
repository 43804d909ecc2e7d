//! Device names, and addresses as a user types them.

use vstd::prelude::*;
use vstd::string::*;

use crate::decimal::{is_digit, law_decimal_roundtrip, read_whole, whole_number, without_plus};
use crate::text::{
    all_white, chars_of, decimal, is_white, law_outer_white_space_is_dropped, push_decimal,
    string_copy, string_of, trim, trimmed,
};

verus! {

/// Whether the device goes by what the user typed.
pub open spec fn names_device(name: Seq<char>, slot: Option<String>) -> bool {
    if trimmed(name).len() == 0 {
        slot is None
    } else {
        slot matches Some(n) && n@ == trimmed(name)
    }
}

/// Sets the device name chosen by the user; a blank one resets it.
pub fn set_device_name(slot: &mut Option<String>, name: &str)
    ensures
        names_device(name@, *final(slot)),
{
    let name: String = trim(name);
    if name.as_str().unicode_len() == 0 {
        *slot = None;
    } else {
        *slot = Some(name);
    }
}

/// The device name chosen by the user, if any.
pub fn try_custom_device_name(slot: &Option<String>) -> (r: Option<String>)
    ensures
        match *slot {
            Some(name) => r matches Some(n) && n@ == name@,
            None => r is None,
        },
{
    match slot {
        Some(name) => Some(string_copy(name.as_str())),
        None => None,
    }
}

/// The name to announce: the one chosen by the user, else the given one.
pub fn effective_device_name(slot: &Option<String>, fallback: &str) -> (r: String)
    ensures
        r@ == (match *slot {
            Some(name) => name@,
            None => fallback@,
        }),
{
    match slot {
        Some(name) => string_copy(name.as_str()),
        None => string_copy(fallback),
    }
}

/// A decimal number, perhaps after a plus sign, that fits into 16 bits.
pub open spec fn is_port(s: Seq<char>) -> bool {
    whole_number(s) matches Some(n) && n <= u16::MAX
}

fn reads_as_port(s: &[char]) -> (r: bool)
    ensures
        r == is_port(s@),
{
    match read_whole(s) {
        Some(n) => n <= 65535,
        None => false,
    }
}

/// The address inside a pair of square brackets.
pub open spec fn in_brackets(s: Seq<char>) -> Option<Seq<char>> {
    if s.len() >= 2 && s[0] == '[' && s.last() == ']' {
        Some(s.subrange(1, s.len() - 1))
    } else {
        None
    }
}

/// The address inside a pair of square brackets.
pub fn strip_brackets(host_port: &str) -> (r: Option<String>)
    ensures
        match in_brackets(host_port@) {
            Some(inner) => r matches Some(s) && s@ == inner,
            None => r is None,
        },
{
    let chars: Vec<char> = chars_of(host_port);
    let n: usize = chars.len();
    if n >= 2 && chars[0] == '[' && chars[n - 1] == ']' {
        Some(string_of(vstd::slice::slice_subrange(chars.as_slice(), 1, n - 1)))
    } else {
        None
    }
}

/// Whether a name already carries a port: one colon, something before it, and
/// a port after it.
pub open spec fn has_port(s: Seq<char>) -> bool {
    exists|i: int|
        0 < i < s.len() && s[i] == ':' && is_port(#[trigger] s.skip(i + 1)) && forall|j: int|
            0 <= j < s.len() && j != i ==> s[j] != ':'
}

fn carries_port(host_port: &str) -> (r: bool)
    ensures
        r == has_port(host_port@),
{
    let chars: Vec<char> = chars_of(host_port);
    let n: usize = chars.len();
    let mut i: usize = 0;
    while i < n && chars[i] != ':'
        invariant
            n == chars@.len(),
            i <= n,
            forall|j: int| 0 <= j < i ==> chars@[j] != ':',
        decreases n - i,
    {
        i += 1;
    }
    if i == n || i == 0 {
        return false;
    }
    let tail: &[char] = vstd::slice::slice_subrange(chars.as_slice(), i + 1, n);
    assert(tail@ =~= chars@.skip(i + 1));
    let ok: bool = reads_as_port(tail);
    proof {
        if ok {
            assert forall|j: int| 0 <= j < chars@.len() && j != i implies chars@[j] != ':' by {
                if j > i {
                    let t = chars@.skip(i + 1);
                    let k = j - i - 1;
                    assert(t[k] == chars@[j]);
                    if t.len() > 0 && t[0] == '+' {
                        if k > 0 {
                            assert(is_digit(without_plus(t)[k - 1]));
                        }
                    } else {
                        assert(is_digit(without_plus(t)[k]));
                    }
                }
            }
            assert(is_port(chars@.skip(i + 1)));
        } else if has_port(chars@) {
            let k = choose|k: int|
                0 < k < chars@.len() && chars@[k] == ':' && is_port(#[trigger] chars@.skip(k + 1))
                    && forall|j: int| 0 <= j < chars@.len() && j != k ==> chars@[j] != ':';
            assert(chars@[i as int] == ':');
            assert(k == i);
        }
    }
    ok
}

/// What a typed address reads as, and how it is written with the default port.
pub struct AddressForms {
    /// It is an address with a port.
    pub is_socket_addr: bool,
    /// It is an address without a port: the text of it with the port.
    pub ip_with_port: Option<String>,
    /// What stands in its square brackets is an address: the text of it with
    /// the port.
    pub bracketed_ip_with_port: Option<String>,
}

/// A typed address with a port.
pub open spec fn dressed(
    host_port: Seq<char>,
    default_port: u16,
    forms: AddressForms,
) -> Seq<char> {
    if forms.is_socket_addr {
        host_port
    } else {
        match forms.ip_with_port {
            Some(text) => text@,
            None => match (in_brackets(host_port), forms.bracketed_ip_with_port) {
                (Some(_), Some(text)) => text@,
                _ => if has_port(host_port) {
                    host_port
                } else {
                    host_port + ":"@ + decimal(default_port as nat)
                },
            },
        }
    }
}

/// Whether a text reads as an address, with a port or without.
pub open spec fn reads_as_address(host_port: Seq<char>, forms: AddressForms) -> bool {
    forms.is_socket_addr || forms.ip_with_port is Some || (in_brackets(host_port) is Some
        && forms.bracketed_ip_with_port is Some)
}

/// Once there is a port it is kept: giving a name or an address a port twice
/// changes nothing. `first` is what the text reads as, `second` what the text
/// with the port does: an address with a port reads as one, and a name with a
/// port is no address without.
pub proof fn law_port_is_kept(
    host_port: Seq<char>,
    port: u16,
    first: AddressForms,
    other: u16,
    second: AddressForms,
)
    requires
        reads_as_address(host_port, first) || (host_port.len() > 0 && !host_port.contains(':')),
        reads_as_address(host_port, first) ==> second.is_socket_addr,
        second.is_socket_addr || second.ip_with_port is None,
    ensures
        dressed(dressed(host_port, port, first), other, second) == dressed(host_port, port, first),
        first.is_socket_addr ==> dressed(host_port, port, first) == host_port,
        !reads_as_address(host_port, first) ==> has_port(dressed(host_port, port, first)),
{
    if !reads_as_address(host_port, first) {
        let number = decimal(port as nat);
        let r = host_port + ":"@ + number;
        let n = host_port.len() as int;
        reveal_strlit(":");
        law_decimal_roundtrip(port as u64);
        assert(!has_port(host_port)) by {
            assert forall|i: int| 0 <= i < n implies host_port[i] != ':' by {
                assert(host_port.contains(host_port[i]));
            }
        }
        assert(r.skip(n + 1) =~= number);
        assert(r[n] == ':');
        assert forall|j: int| 0 <= j < r.len() && j != n implies r[j] != ':' by {
            if j < n {
                assert(host_port.contains(host_port[j]));
            } else {
                assert(is_digit(number[j - n - 1]));
            }
        }
        assert(is_port(r.skip(n + 1)));
        assert(has_port(r));
        assert(is_digit(number[number.len() - 1]));
        assert(r.last() == number.last());
    }
}

/// Gives a typed address a port where it has none. Addresses are told apart
/// from names by what they read as, since a colon alone does not tell an IPv6
/// address from a port.
pub fn with_default_port(host_port: &str, default_port: u16, forms: &AddressForms) -> (r: String)
    ensures
        r@ == dressed(host_port@, default_port, *forms),
{
    if forms.is_socket_addr {
        return string_copy(host_port);
    }
    if let Some(text) = &forms.ip_with_port {
        return string_copy(text.as_str());
    }
    if strip_brackets(host_port).is_some() {
        if let Some(text) = &forms.bracketed_ip_with_port {
            return string_copy(text.as_str());
        }
    }
    if carries_port(host_port) {
        return string_copy(host_port);
    }
    let mut r = string_copy(host_port);
    r.append(":");
    push_decimal(&mut r, default_port as u64);
    r
}

/// A name without a port gets the one given, behind a colon; one that has a port
/// keeps it, and so does an address with one.
pub proof fn law_missing_port_is_added(
    host: Seq<char>,
    port: u16,
    default: u16,
    forms: AddressForms,
)
    requires
        host.len() > 0,
        !host.contains(':'),
    ensures
        !reads_as_address(host, forms) ==> dressed(host, default, forms) == host + ":"@ + decimal(
            default as nat,
        ),
        !reads_as_address(host + ":"@ + decimal(port as nat), forms) ==> dressed(
            host + ":"@ + decimal(port as nat),
            default,
            forms,
        ) == host + ":"@ + decimal(port as nat),
        forms.is_socket_addr ==> dressed(host, default, forms) == host,
{
    if has_port(host) {
        let i = choose|i: int|
            0 < i < host.len() && host[i] == ':' && is_port(#[trigger] host.skip(i + 1)) && forall|
                j: int,
            |
                0 <= j < host.len() && j != i ==> host[j] != ':';
        assert(host.contains(host[i]));
    }
    let full = host + ":"@ + decimal(port as nat);
    reveal_strlit(":");
    law_decimal_roundtrip(port as u64);
    let n = host.len() as int;
    assert(full.skip(n + 1) =~= decimal(port as nat));
    assert(is_port(full.skip(n + 1)));
    assert(full[n] == ':');
    assert forall|j: int| 0 <= j < full.len() && j != n implies full[j] != ':' by {
        if j < n {
            assert(host.contains(host[j]));
        } else {
            let d = decimal(port as nat);
            assert(full[j] == d[j - n - 1]);
            assert(is_digit(d[j - n - 1]));
        }
    }
    assert(has_port(full));
}

/// A name counts without the white space around it, a blank one counts as none,
/// and the name that the user chose goes before any other.
pub proof fn law_chosen_name_goes_first(
    a: Seq<char>,
    name: Seq<char>,
    b: Seq<char>,
    slot: Option<String>,
    fallback: &str,
    shown: String,
)
    requires
        all_white(a),
        all_white(b),
        name.len() > 0 ==> !is_white(name[0]) && !is_white(name.last()),
        names_device(a + name + b, slot),
        call_ensures(effective_device_name, (&slot, fallback), shown),
    ensures
        slot is Some <==> name.len() > 0,
        name.len() > 0 ==> shown@ == name,
        name.len() == 0 ==> shown@ == fallback@,
{
    law_outer_white_space_is_dropped(a, name, b);
    assert(trimmed(name) == name);
}

/// A number behind a colon is a port exactly where it fits into 16 bits.
pub proof fn law_ports_fit_into_sixteen_bits(host: Seq<char>, n: u64)
    requires
        host.len() > 0,
        !host.contains(':'),
    ensures
        has_port(host + ":"@ + decimal(n as nat)) <==> n <= 65535,
        is_port(decimal(n as nat)) <==> n <= 65535,
{
    let full = host + ":"@ + decimal(n as nat);
    reveal_strlit(":");
    law_decimal_roundtrip(n);
    let k = host.len() as int;
    assert(full.skip(k + 1) =~= decimal(n as nat));
    assert(full[k] == ':');
    assert forall|j: int| 0 <= j < full.len() && j != k implies full[j] != ':' by {
        if j < k {
            assert(host.contains(host[j]));
        } else {
            let d = decimal(n as nat);
            assert(full[j] == d[j - k - 1]);
            assert(is_digit(d[j - k - 1]));
        }
    }
    if n <= 65535 {
        assert(is_port(full.skip(k + 1)));
    }
    if has_port(full) {
        let i = choose|i: int|
            0 < i < full.len() && full[i] == ':' && is_port(#[trigger] full.skip(i + 1)) && forall|
                j: int,
            |
                0 <= j < full.len() && j != i ==> full[j] != ':';
        assert(i == k);
    }
}

/// An address without a port is written with the port, with or without square
/// brackets around it.
pub proof fn law_addresses_are_written_with_the_port(
    host: Seq<char>,
    default: u16,
    forms: AddressForms,
)
    ensures
        !forms.is_socket_addr && forms.ip_with_port is Some ==> dressed(host, default, forms)
            == forms.ip_with_port->0@,
        !forms.is_socket_addr && forms.ip_with_port is None && host.len() >= 2 && host[0] == '['
            && host.last() == ']' && forms.bracketed_ip_with_port is Some ==> dressed(
            host,
            default,
            forms,
        ) == forms.bracketed_ip_with_port->0@,
        in_brackets(seq!['['] + host + seq![']']) == Some(host),
        host.len() == 0 || host[0] != '[' || host.last() != ']' ==> in_brackets(host) is None,
{
    let s = seq!['['] + host + seq![']'];
    assert(s.subrange(1, s.len() - 1) =~= host);
}

} // verus!
