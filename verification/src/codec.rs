//! Canonical textual form of an endpoint address.
//!
//! An address is written `host:port`, or `[host]:port` when the host itself
//! contains a colon (an IPv6 literal). Decoding splits at the last colon,
//! requires the trailing part to be a decimal 16-bit port, and removes one
//! pair of surrounding brackets from the host if both are present.

use vstd::prelude::*;

verus! {

/// The character for a single decimal digit value.
pub open spec fn digit_char(d: nat) -> char {
    if d == 0 {
        '0'
    } else if d == 1 {
        '1'
    } else if d == 2 {
        '2'
    } else if d == 3 {
        '3'
    } else if d == 4 {
        '4'
    } else if d == 5 {
        '5'
    } else if d == 6 {
        '6'
    } else if d == 7 {
        '7'
    } else if d == 8 {
        '8'
    } else {
        '9'
    }
}

pub open spec fn is_digit_char(c: char) -> bool {
    c == '0' || c == '1' || c == '2' || c == '3' || c == '4' || c == '5' || c == '6' || c == '7'
        || c == '8' || c == '9'
}

/// The numeric value of a decimal digit character.
pub open spec fn digit_val(c: char) -> nat {
    if c == '0' {
        0
    } else if c == '1' {
        1
    } else if c == '2' {
        2
    } else if c == '3' {
        3
    } else if c == '4' {
        4
    } else if c == '5' {
        5
    } else if c == '6' {
        6
    } else if c == '7' {
        7
    } else if c == '8' {
        8
    } else {
        9
    }
}

pub open spec fn all_digits(s: Seq<char>) -> bool {
    forall|i: int| 0 <= i < s.len() ==> is_digit_char(s[i])
}

/// The value of a string of decimal digits, most significant first.
pub open spec fn dec_val(s: Seq<char>) -> nat
    decreases s.len(),
{
    if s.len() == 0 {
        0
    } else {
        dec_val(s.drop_last()) * 10 + digit_val(s.last())
    }
}

/// What a textual port stands for: a non-empty, all-digit string whose value
/// fits in sixteen bits; anything else is rejected.
pub open spec fn parse_port_spec(s: Seq<char>) -> Option<u16> {
    if s.len() > 0 && all_digits(s) && dec_val(s) <= 65535 {
        Some(dec_val(s) as u16)
    } else {
        None
    }
}

/// The canonical decimal digits of a port value, without leading zeros.
pub open spec fn port_digits(p: nat) -> Seq<char>
    decreases p,
{
    if p < 10 {
        seq![digit_char(p)]
    } else {
        port_digits(p / 10).push(digit_char(p % 10))
    }
}

pub open spec fn has_colon(s: Seq<char>) -> bool {
    exists|i: int| 0 <= i < s.len() && s[i] == ':'
}

/// The canonical wire form of a host and port: the host is wrapped in
/// brackets exactly when it contains a colon.
pub open spec fn encode_spec(host: Seq<char>, port: u16) -> Seq<char> {
    if has_colon(host) {
        seq!['['] + host + seq![']'] + seq![':'] + port_digits(port as nat)
    } else {
        host + seq![':'] + port_digits(port as nat)
    }
}

/// Index of the last colon in `s`, or -1 when there is none.
pub open spec fn last_colon(s: Seq<char>) -> int
    decreases s.len(),
{
    if s.len() == 0 {
        -1
    } else if s.last() == ':' {
        s.len() - 1
    } else {
        last_colon(s.drop_last())
    }
}

/// One pair of surrounding brackets is removed, if both are present.
pub open spec fn strip_brackets(h: Seq<char>) -> Seq<char> {
    if h.len() >= 2 && h[0] == '[' && h[h.len() - 1] == ']' {
        h.subrange(1, h.len() - 1)
    } else {
        h
    }
}

/// What decoding a raw address yields: the text after the last colon must be
/// a valid port; the text before it, brackets stripped, is the host.
pub open spec fn decode_spec(s: Seq<char>) -> Option<(Seq<char>, u16)> {
    let i = last_colon(s);
    if i < 0 {
        None
    } else {
        match parse_port_spec(s.subrange(i + 1, s.len() as int)) {
            Some(p) => Some((strip_brackets(s.subrange(0, i)), p)),
            None => None,
        }
    }
}

/// The single-character string for a decimal digit value.
fn digit_str(d: u16) -> (r: &'static str)
    requires
        d < 10,
    ensures
        r@ == seq![digit_char(d as nat)],
{
    proof {
        reveal_strlit("0");
        reveal_strlit("1");
        reveal_strlit("2");
        reveal_strlit("3");
        reveal_strlit("4");
        reveal_strlit("5");
        reveal_strlit("6");
        reveal_strlit("7");
        reveal_strlit("8");
        reveal_strlit("9");
    }
    let r = if d == 0 {
        "0"
    } else if d == 1 {
        "1"
    } else if d == 2 {
        "2"
    } else if d == 3 {
        "3"
    } else if d == 4 {
        "4"
    } else if d == 5 {
        "5"
    } else if d == 6 {
        "6"
    } else if d == 7 {
        "7"
    } else if d == 8 {
        "8"
    } else {
        "9"
    };
    proof {
        assert(r@ =~= seq![digit_char(d as nat)]);
    }
    r
}

/// Appends the canonical decimal digits of `p` to `s`.
fn push_port_digits(s: &mut String, p: u16)
    ensures
        final(s)@ == old(s)@ + port_digits(p as nat),
    decreases p,
{
    if p >= 10 {
        push_port_digits(s, p / 10);
    }
    s.append(digit_str(p % 10));
    proof {
        if p < 10 {
            assert(final(s)@ =~= old(s)@ + port_digits(p as nat));
        } else {
            assert(port_digits(p as nat) =~= port_digits(p as nat / 10).push(
                digit_char(p as nat % 10),
            ));
            assert(final(s)@ =~= old(s)@ + port_digits(p as nat));
        }
    }
}

/// Whether the string contains a colon anywhere.
fn str_has_colon(s: &str) -> (r: bool)
    ensures
        r == has_colon(s@),
{
    let n = s.unicode_len();
    let mut i: usize = 0;
    while i < n
        invariant
            n == s@.len(),
            i <= n,
            forall|j: int| 0 <= j < i ==> s@[j] != ':',
        decreases n - i,
    {
        if s.get_char(i) == ':' {
            return true;
        }
        i = i + 1;
    }
    false
}

/// `last_colon` finds a colon when one exists, and nothing follows it.
proof fn lemma_last_colon_props(s: Seq<char>)
    ensures
        -1 <= last_colon(s) < s.len(),
        last_colon(s) >= 0 ==> s[last_colon(s)] == ':' && has_colon(s) && (forall|j: int|
            last_colon(s) < j < s.len() ==> s[j] != ':'),
        has_colon(s) ==> last_colon(s) >= 0,
    decreases s.len(),
{
    if s.len() == 0 {
    } else if s.last() == ':' {
    } else {
        lemma_last_colon_props(s.drop_last());
        assert(forall|j: int| 0 <= j < s.len() - 1 ==> s[j] == s.drop_last()[j]);
        if has_colon(s) {
            let i = choose|i: int| 0 <= i < s.len() && s[i] == ':';
            assert(s.drop_last()[i] == ':');
        }
    }
}

/// The index of a colon with no colon after it is the last colon.
proof fn lemma_last_colon_unique(s: Seq<char>, i: int)
    requires
        0 <= i < s.len(),
        s[i] == ':',
        forall|j: int| i < j < s.len() ==> s[j] != ':',
    ensures
        last_colon(s) == i,
{
    lemma_last_colon_props(s);
    assert(has_colon(s));
}

/// Index of the last colon of `s`, if it has one.
fn find_last_colon(s: &str) -> (r: Option<usize>)
    ensures
        r is Some <==> has_colon(s@),
        r matches Some(i) ==> i as int == last_colon(s@) && i < s@.len(),
{
    let n = s.unicode_len();
    let mut i: usize = n;
    while i > 0
        invariant
            n == s@.len(),
            i <= n,
            forall|j: int| i <= j < n ==> s@[j] != ':',
        decreases i,
    {
        i = i - 1;
        if s.get_char(i) == ':' {
            proof {
                lemma_last_colon_unique(s@, i as int);
            }
            return Some(i);
        }
    }
    None
}

/// Writes a host and port in canonical wire form: the host is bracketed
/// exactly when it contains a colon, and the port follows the last colon.
pub fn format_address(host: &str, port: u16) -> (r: String)
    ensures
        r@ == encode_spec(host@, port),
{
    proof {
        reveal_strlit("[");
        reveal_strlit("]");
        reveal_strlit(":");
    }
    let mut r = String::new();
    if str_has_colon(host) {
        r.append("[");
        r.append(host);
        r.append("]");
    } else {
        r.append(host);
    }
    r.append(":");
    push_port_digits(&mut r, port);
    proof {
        assert(r@ =~= encode_spec(host@, port));
    }
    r
}

/// The numeric value of a digit character, if it is one.
fn digit_of(c: char) -> (r: Option<u32>)
    ensures
        r is Some <==> is_digit_char(c),
        r matches Some(d) ==> d == digit_val(c),
{
    if c == '0' {
        Some(0)
    } else if c == '1' {
        Some(1)
    } else if c == '2' {
        Some(2)
    } else if c == '3' {
        Some(3)
    } else if c == '4' {
        Some(4)
    } else if c == '5' {
        Some(5)
    } else if c == '6' {
        Some(6)
    } else if c == '7' {
        Some(7)
    } else if c == '8' {
        Some(8)
    } else if c == '9' {
        Some(9)
    } else {
        None
    }
}

/// Reads a textual port: non-empty, all decimal digits, value at most 65535.
pub fn parse_port(s: &str) -> (r: Option<u16>)
    ensures
        r == parse_port_spec(s@),
{
    let n = s.unicode_len();
    if n == 0 {
        return None;
    }
    let mut val: u32 = 0;
    let mut i: usize = 0;
    while i < n
        invariant
            n == s@.len(),
            i <= n,
            forall|j: int| 0 <= j < i ==> is_digit_char(s@[j]),
            val == if dec_val(s@.subrange(0, i as int)) <= 65535 {
                dec_val(s@.subrange(0, i as int))
            } else {
                65536
            },
        decreases n - i,
    {
        let c = s.get_char(i);
        let d = match digit_of(c) {
            Some(d) => d,
            None => {
                return None;
            },
        };
        let grown = val * 10 + d;
        proof {
            assert(s@.subrange(0, i + 1).drop_last() =~= s@.subrange(0, i as int));
            assert(s@.subrange(0, i + 1).last() == s@[i as int]);
        }
        val = if grown > 65535 {
            65536
        } else {
            grown
        };
        i = i + 1;
    }
    proof {
        assert(s@.subrange(0, n as int) =~= s@);
    }
    if val <= 65535 {
        Some(val as u16)
    } else {
        None
    }
}

/// Reads a raw address: the text after the last colon must be a valid port;
/// the host before it loses one pair of surrounding brackets if present.
pub fn parse_address(raw: &str) -> (r: Option<(String, u16)>)
    ensures
        r is Some <==> decode_spec(raw@) is Some,
        r matches Some(a) ==> decode_spec(raw@) == Some((a.0@, a.1)),
{
    let n = raw.unicode_len();
    let sep = match find_last_colon(raw) {
        Some(i) => i,
        None => {
            proof {
                lemma_last_colon_props(raw@);
            }
            return None;
        },
    };
    let port_part = raw.substring_char(sep + 1, n);
    proof {
        assert(port_part@ =~= raw@.subrange(last_colon(raw@) + 1, raw@.len() as int));
    }
    let port = match parse_port(port_part) {
        Some(p) => p,
        None => {
            proof {
                assert(decode_spec(raw@) is None);
            }
            return None;
        },
    };
    let host_part = raw.substring_char(0, sep);
    let hn = host_part.unicode_len();
    let host = if hn >= 2 && host_part.get_char(0) == '[' && host_part.get_char(hn - 1) == ']' {
        host_part.substring_char(1, hn - 1)
    } else {
        host_part
    };
    proof {
        assert(host@ =~= strip_brackets(raw@.subrange(0, last_colon(raw@))));
    }
    Some((host.to_owned(), port))
}

/// A digit character carries the value it was made from.
proof fn lemma_digit_char_val(d: nat)
    requires
        d < 10,
    ensures
        is_digit_char(digit_char(d)),
        digit_val(digit_char(d)) == d,
{
}

/// The canonical digits of a port are non-empty decimal digits whose value
/// is the port itself.
proof fn lemma_port_digits(p: nat)
    ensures
        port_digits(p).len() >= 1,
        all_digits(port_digits(p)),
        dec_val(port_digits(p)) == p,
    decreases p,
{
    if p < 10 {
        lemma_digit_char_val(p);
        assert(port_digits(p).drop_last() =~= Seq::<char>::empty());
        assert(dec_val(Seq::<char>::empty()) == 0);
    } else {
        lemma_port_digits(p / 10);
        lemma_digit_char_val(p % 10);
        vstd::arithmetic::div_mod::lemma_fundamental_div_mod(p as int, 10);
        let pd = port_digits(p / 10);
        assert(pd.push(digit_char(p % 10)).drop_last() =~= pd);
        assert(port_digits(p).last() == digit_char(p % 10));
        assert(dec_val(port_digits(p)) == dec_val(pd) * 10 + digit_val(digit_char(p % 10)));
    }
}

/// Decoding a canonically encoded address always succeeds and gives back
/// the port exactly; the host comes back with one pair of surrounding
/// brackets removed when it had no colon and was not wrapped by encoding.
pub proof fn lemma_encode_decodes(host: Seq<char>, port: u16)
    ensures
        decode_spec(encode_spec(host, port)) is Some,
        decode_spec(encode_spec(host, port)) == Some(
            (
                if has_colon(host) {
                    host
                } else {
                    strip_brackets(host)
                },
                port,
            ),
        ),
{
    lemma_port_digits(port as nat);
    let pd = port_digits(port as nat);
    let e = encode_spec(host, port);
    if has_colon(host) {
        let sep = host.len() + 2;
        assert(e[sep as int] == ':');
        assert(forall|j: int|
            sep < j < e.len() ==> e[j] == pd[j - sep - 1] && is_digit_char(#[trigger] e[j]));
        lemma_last_colon_unique(e, sep as int);
        assert(e.subrange(sep as int + 1, e.len() as int) =~= pd);
        let hp = e.subrange(0, sep as int);
        assert(hp.len() == host.len() + 2);
        assert(hp[0] == '[' && hp[hp.len() - 1] == ']');
        assert(hp.subrange(1, hp.len() - 1) =~= host);
    } else {
        let sep = host.len();
        assert(e[sep as int] == ':');
        assert(forall|j: int|
            sep < j < e.len() ==> e[j] == pd[j - sep - 1] && is_digit_char(#[trigger] e[j]));
        lemma_last_colon_unique(e, sep as int);
        assert(e.subrange(sep as int + 1, e.len() as int) =~= pd);
        assert(e.subrange(0, sep as int) =~= host);
    }
}

/// Round trip: decoding a canonically encoded address gives back the host
/// and port, for any host that is not itself already bracket-wrapped.
pub proof fn lemma_round_trip(host: Seq<char>, port: u16)
    requires
        has_colon(host) || strip_brackets(host) == host,
    ensures
        decode_spec(encode_spec(host, port)) == Some((host, port)),
{
    lemma_encode_decodes(host, port);
}

/// The parsed forms of the addresses in a list that decode, in order;
/// a malformed address is dropped, failing neither the list nor its owner.
pub open spec fn parse_list_spec(addrs: Seq<Seq<char>>) -> Seq<(Seq<char>, u16)>
    decreases addrs.len(),
{
    if addrs.len() == 0 {
        seq![]
    } else {
        let rest = parse_list_spec(addrs.drop_last());
        match decode_spec(addrs.last()) {
            Some(hp) => rest.push(hp),
            None => rest,
        }
    }
}

/// Decodes every address of a candidate, keeping the ones that parse.
pub fn parse_or_addresses(or_addresses: &Vec<String>) -> (r: Vec<(String, u16)>)
    ensures
        r.deep_view() == parse_list_spec(or_addresses.deep_view()),
{
    let mut r: Vec<(String, u16)> = Vec::new();
    let n = or_addresses.len();
    let mut i: usize = 0;
    while i < n
        invariant
            n == or_addresses.len(),
            i <= n,
            r.deep_view() == parse_list_spec(or_addresses.deep_view().subrange(0, i as int)),
        decreases n - i,
    {
        let ghost prefix = or_addresses.deep_view().subrange(0, i as int);
        let ghost grown = or_addresses.deep_view().subrange(0, i + 1);
        proof {
            assert(grown.drop_last() =~= prefix);
            assert(grown.last() == or_addresses[i as int]@);
        }
        match parse_address(or_addresses[i].as_str()) {
            Some(parsed) => {
                r.push(parsed);
                proof {
                    assert(r.deep_view() =~= parse_list_spec(grown));
                }
            },
            None => {
                proof {
                    assert(r.deep_view() =~= parse_list_spec(grown));
                }
            },
        }
        i = i + 1;
    }
    proof {
        assert(or_addresses.deep_view().subrange(0, n as int) =~= or_addresses.deep_view());
    }
    r
}

} // verus!
