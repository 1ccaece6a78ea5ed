use vstd::prelude::*;

use crate::error::SpoutError;
use vstd::string::StringSliceAdditionalSpecFns;
use vstd::utf8::{encode_scalar, encode_utf8, has_width_1_encoding, leading_byte_width_1};

use crate::text::{
    chars_of, join_with, lemma_split_join, parse_usize, push_char, spec_parse_usize, split,
    split_on, string_from_chars, trim, trim_bounds,
};

verus! {

/// Seconds before an HTTP request gives up.
pub const HTTP_TIMEOUT_SECS: u64 = 30;

/// Milliseconds before a DNS lookup gives up.
pub const DNS_TIMEOUT_MS: u64 = 1500;

/// The largest response body that is read, in bytes.
pub const MAX_RESPONSE: u64 = 10485760;

/// The longest URL accepted from a response, in bytes.
pub const MAX_URL_LEN: usize = 2048;

// ---------------------------------------------------------------------------
// Percent-encoding of filenames
// ---------------------------------------------------------------------------

/// The bytes that stand for themselves in a URL: letters, digits, `-_.~`.
pub open spec fn is_unreserved(b: u8) -> bool {
    ||| 0x61 <= b <= 0x7A
    ||| 0x41 <= b <= 0x5A
    ||| 0x30 <= b <= 0x39
    ||| b == 0x2D
    ||| b == 0x5F
    ||| b == 0x2E
    ||| b == 0x7E
}

/// The upper-case hexadecimal digit for `d` in `0..16`.
pub open spec fn hex_upper(d: int) -> char {
    if d < 10 {
        ((48 + d) as u8) as char
    } else {
        ((55 + d) as u8) as char
    }
}

/// The encoding of one byte: itself if unreserved, else `%` and two digits.
pub open spec fn encode_byte(b: u8) -> Seq<char> {
    if is_unreserved(b) {
        seq![b as char]
    } else {
        seq!['%', hex_upper(b as int / 16), hex_upper(b as int % 16)]
    }
}

/// The percent-encoding of a byte string.
pub open spec fn percent_encode(bs: Seq<u8>) -> Seq<char>
    decreases bs.len(),
{
    if bs.len() == 0 {
        Seq::empty()
    } else {
        encode_byte(bs[0]) + percent_encode(bs.drop_first())
    }
}

pub proof fn lemma_percent_encode_append(a: Seq<u8>, b: Seq<u8>)
    ensures
        percent_encode(a + b) == percent_encode(a) + percent_encode(b),
    decreases a.len(),
{
    if a.len() == 0 {
        assert(a + b =~= b);
        assert(Seq::<char>::empty() + percent_encode(b) =~= percent_encode(b));
    } else {
        lemma_percent_encode_append(a.drop_first(), b);
        assert((a + b).drop_first() =~= a.drop_first() + b);
        assert(encode_byte(a[0]) + (percent_encode(a.drop_first()) + percent_encode(b))
            =~= (encode_byte(a[0]) + percent_encode(a.drop_first())) + percent_encode(b));
    }
}

fn hex_digit(d: u8) -> (c: char)
    requires
        d < 16,
    ensures
        c == hex_upper(d as int),
{
    if d < 10 {
        (48 + d) as char
    } else {
        (55 + d) as char
    }
}

/// The UTF-8 bytes of `s` with every byte outside `A-Z a-z 0-9 - _ . ~`
/// written as `%` and two upper-case hexadecimal digits.
pub fn uri_encode(s: &str) -> (out: String)
    ensures
        out@ == percent_encode(s.spec_bytes()),
{
    let bytes = s.as_bytes();
    let mut out = String::new();
    let mut i: usize = 0;
    assert(bytes@.subrange(0, 0) =~= Seq::<u8>::empty());
    while i < bytes.len()
        invariant
            i <= bytes@.len(),
            bytes@ == s.spec_bytes(),
            out@ == percent_encode(bytes@.subrange(0, i as int)),
        decreases bytes@.len() - i,
    {
        let b = bytes[i];
        let ghost before = out@;
        if (0x61 <= b && b <= 0x7A) || (0x41 <= b && b <= 0x5A) || (0x30 <= b && b <= 0x39) || b
            == 0x2D || b == 0x5F || b == 0x2E || b == 0x7E {
            push_char(&mut out, b as char);
        } else {
            push_char(&mut out, '%');
            push_char(&mut out, hex_digit(b / 16));
            push_char(&mut out, hex_digit(b % 16));
        }
        proof {
            assert(out@ =~= before + encode_byte(b));
            assert(bytes@.subrange(0, i + 1) =~= bytes@.subrange(0, i as int) + seq![b]);
            lemma_percent_encode_append(bytes@.subrange(0, i as int), seq![b]);
            assert(seq![b].drop_first() =~= Seq::<u8>::empty());
            assert(percent_encode(seq![b].drop_first()) == Seq::<char>::empty());
            assert(percent_encode(seq![b]) =~= encode_byte(b));
        }
        i += 1;
    }
    assert(bytes@.subrange(0, i as int) =~= bytes@);
    out
}

/// The value of a hexadecimal digit.
pub open spec fn hex_value(c: char) -> int {
    if '0' <= c && c <= '9' {
        c as int - 48
    } else if 'A' <= c && c <= 'F' {
        c as int - 55
    } else if 'a' <= c && c <= 'f' {
        c as int - 87
    } else {
        0
    }
}

/// Percent-decoding: `%` and two hexadecimal digits stand for one byte,
/// every other character for its own code.
pub open spec fn percent_decode(cs: Seq<char>) -> Seq<u8>
    decreases cs.len(),
{
    if cs.len() == 0 {
        Seq::empty()
    } else if cs[0] == '%' && cs.len() >= 3 {
        seq![(hex_value(cs[1]) * 16 + hex_value(cs[2])) as u8] + percent_decode(
            cs.subrange(3, cs.len() as int),
        )
    } else {
        seq![cs[0] as u8] + percent_decode(cs.drop_first())
    }
}

proof fn lemma_decode_encoded_byte(b: u8, rest: Seq<char>)
    ensures
        percent_decode(encode_byte(b) + rest) == seq![b] + percent_decode(rest),
{
    let e = encode_byte(b) + rest;
    if is_unreserved(b) {
        assert((b as char) as u8 == b);
        assert(b as char != '%');
        assert(e.drop_first() =~= rest);
    } else {
        let hi = b as int / 16;
        let lo = b as int % 16;
        assert(hex_value(hex_upper(hi)) == hi);
        assert(hex_value(hex_upper(lo)) == lo);
        assert(e.subrange(3, e.len() as int) =~= rest);
        assert((hi * 16 + lo) as u8 == b);
    }
}

/// Percent-decoding gives back the bytes that were encoded, and the encoding
/// holds nothing but unreserved characters, `%` and upper-case hex digits.
pub proof fn lemma_uri_encode_roundtrip(bs: Seq<u8>)
    ensures
        percent_decode(percent_encode(bs)) == bs,
        forall|i: int|
            0 <= i < percent_encode(bs).len() ==> {
                let c = #[trigger] percent_encode(bs)[i];
                (c as u32) < 128 && (is_unreserved(c as u8) || c == '%' || ('A' <= c && c <= 'F'))
            },
    decreases bs.len(),
{
    if bs.len() > 0 {
        lemma_uri_encode_roundtrip(bs.drop_first());
        lemma_decode_encoded_byte(bs[0], percent_encode(bs.drop_first()));
        assert(seq![bs[0]] + bs.drop_first() =~= bs);
        let e = encode_byte(bs[0]);
        let r = percent_encode(bs.drop_first());
        assert forall|i: int| 0 <= i < percent_encode(bs).len() implies {
            let c = #[trigger] percent_encode(bs)[i];
            (c as u32) < 128 && (is_unreserved(c as u8) || c == '%' || ('A' <= c && c <= 'F'))
        } by {
            if i < e.len() {
                let b = bs[0];
                if is_unreserved(b) {
                    assert(((b as char) as u32) < 128 ==> true);
                    assert((b as char) as u8 == b);
                    assert(((b as char) as u32) == b as u32);
                }
            } else {
                assert(percent_encode(bs)[i] == r[i - e.len()]);
            }
        }
    }
}


/// The UTF-8 encoding of a concatenation is the concatenation of the
/// encodings.
pub proof fn lemma_encode_utf8_append(a: Seq<char>, b: Seq<char>)
    ensures
        encode_utf8(a + b) == encode_utf8(a) + encode_utf8(b),
    decreases a.len(),
{
    if a.len() == 0 {
        assert(a + b =~= b);
        assert(encode_utf8(a) =~= Seq::<u8>::empty());
        assert(Seq::<u8>::empty() + encode_utf8(b) =~= encode_utf8(b));
    } else {
        lemma_encode_utf8_append(a.drop_first(), b);
        assert((a + b).drop_first() =~= a.drop_first() + b);
        assert((a + b)[0] == a[0]);
        assert(encode_scalar(a[0] as u32) + (encode_utf8(a.drop_first()) + encode_utf8(b))
            =~= (encode_scalar(a[0] as u32) + encode_utf8(a.drop_first())) + encode_utf8(b));
    }
}

/// A character that `uri_encode` writes as itself: an ASCII letter, digit,
/// `-`, `_`, `.` or `~`.
pub open spec fn is_unreserved_char(c: char) -> bool {
    (c as u32) < 128 && is_unreserved(c as u8)
}

proof fn lemma_percent_encode_len(bs: Seq<u8>)
    ensures
        percent_encode(bs).len() >= bs.len(),
    decreases bs.len(),
{
    if bs.len() > 0 {
        lemma_percent_encode_len(bs.drop_first());
    }
}

proof fn lemma_encode_char(c: char)
    ensures
        percent_encode(encode_scalar(c as u32)).len() >= 1,
        percent_encode(encode_scalar(c as u32)).len() == 1 <==> is_unreserved_char(c),
        is_unreserved_char(c) ==> percent_encode(encode_scalar(c as u32)) == seq![c],
{
    let v = c as u32;
    let e = encode_scalar(v);
    lemma_percent_encode_len(e);
    if has_width_1_encoding(v) {
        let b = leading_byte_width_1(v);
        assert(b == v as u8) by (bit_vector)
            requires
                b == (v & 0x7F) as u8,
                v <= 0x7F,
        ;
        assert(e.drop_first() =~= Seq::<u8>::empty());
        assert(percent_encode(e.drop_first()) == Seq::<char>::empty());
        assert(e[0] == b);
        assert(percent_encode(e) =~= encode_byte(b));
        if is_unreserved(b) {
            assert((b as char) as u32 == v);
            assert(b as char == c);
        }
    }
}

proof fn lemma_encoded_len(s: Seq<char>)
    ensures
        percent_encode(encode_utf8(s)).len() >= s.len(),
        percent_encode(encode_utf8(s)).len() == s.len() <==> (forall|i: int|
            0 <= i < s.len() ==> is_unreserved_char(#[trigger] s[i])),
        (forall|i: int| 0 <= i < s.len() ==> is_unreserved_char(#[trigger] s[i])) ==> percent_encode(
            encode_utf8(s),
        ) == s,
    decreases s.len(),
{
    if s.len() > 0 {
        let r = s.drop_first();
        lemma_encoded_len(r);
        lemma_encode_char(s[0]);
        lemma_percent_encode_append(encode_scalar(s[0] as u32), encode_utf8(r));
        if forall|i: int| 0 <= i < s.len() ==> is_unreserved_char(#[trigger] s[i]) {
            assert forall|i: int| 0 <= i < r.len() implies is_unreserved_char(#[trigger] r[i]) by {
                assert(r[i] == s[i + 1]);
            }
            assert(seq![s[0]] + r =~= s);
        }
        if percent_encode(encode_utf8(s)).len() == s.len() {
            assert forall|i: int| 0 <= i < s.len() implies is_unreserved_char(#[trigger] s[i]) by {
                if i > 0 {
                    assert(s[i] == r[i - 1]);
                }
            }
        }
    } else {
        assert(encode_utf8(s) =~= Seq::<u8>::empty());
        assert(percent_encode(encode_utf8(s)) =~= s);
    }
}

/// Encoding two strings one after the other gives the encoding of their
/// concatenation.
pub proof fn lemma_uri_encode_concat(a: Seq<char>, b: Seq<char>)
    ensures
        percent_encode(encode_utf8(a + b)) == percent_encode(encode_utf8(a)) + percent_encode(
            encode_utf8(b),
        ),
{
    lemma_encode_utf8_append(a, b);
    lemma_percent_encode_append(encode_utf8(a), encode_utf8(b));
}

/// Encoding leaves a string unchanged exactly when every character in it is
/// unreserved; otherwise the encoding is longer.
pub proof fn lemma_uri_encode_identity(s: Seq<char>)
    ensures
        percent_encode(encode_utf8(s)) == s <==> (forall|i: int|
            0 <= i < s.len() ==> is_unreserved_char(#[trigger] s[i])),
        percent_encode(encode_utf8(s)).len() >= s.len(),
{
    lemma_encoded_len(s);
}

/// How one byte is encoded: an ASCII letter, digit, `-`, `_`, `.` or `~` is
/// written as itself; any other byte as `%` and its two upper-case
/// hexadecimal digits (`&` as `%26`, for instance).
pub proof fn lemma_percent_encode_byte(b: u8)
    ensures
        (0x61 <= b <= 0x7A || 0x41 <= b <= 0x5A || 0x30 <= b <= 0x39 || b == 0x2D || b == 0x5F
            || b == 0x2E || b == 0x7E) ==> percent_encode(seq![b]) == seq![b as char],
        !(0x61 <= b <= 0x7A || 0x41 <= b <= 0x5A || 0x30 <= b <= 0x39 || b == 0x2D || b == 0x5F
            || b == 0x2E || b == 0x7E) ==> percent_encode(seq![b]) == seq![
            '%',
            ((if b / 16 < 10 { 48 + b / 16 } else { 55 + b / 16 }) as u8) as char,
            ((if b % 16 < 10 { 48 + b % 16 } else { 55 + b % 16 }) as u8) as char,
        ],
{
    assert(seq![b].drop_first() =~= Seq::<u8>::empty());
    assert(percent_encode(seq![b].drop_first()) == Seq::<char>::empty());
    assert(percent_encode(seq![b]) =~= encode_byte(b));
}

/// Every character of an encoding is an ASCII letter, digit, `-`, `_`, `.`,
/// `~` or `%`.
pub proof fn lemma_percent_encode_alphabet(bs: Seq<u8>)
    ensures
        forall|i: int|
            0 <= i < percent_encode(bs).len() ==> {
                let c = #[trigger] percent_encode(bs)[i];
                ||| 'a' <= c <= 'z'
                ||| 'A' <= c <= 'Z'
                ||| '0' <= c <= '9'
                ||| c == '-'
                ||| c == '_'
                ||| c == '.'
                ||| c == '~'
                ||| c == '%'
            },
    decreases bs.len(),
{
    if bs.len() > 0 {
        let b = bs[0];
        let e = encode_byte(b);
        let r = percent_encode(bs.drop_first());
        lemma_percent_encode_alphabet(bs.drop_first());
        assert(percent_encode(bs) == e + r);
        assert forall|i: int| 0 <= i < percent_encode(bs).len() implies {
            let c = #[trigger] percent_encode(bs)[i];
            ||| 'a' <= c <= 'z'
            ||| 'A' <= c <= 'Z'
            ||| '0' <= c <= '9'
            ||| c == '-'
            ||| c == '_'
            ||| c == '.'
            ||| c == '~'
            ||| c == '%'
        } by {
            if i < e.len() {
                assert(percent_encode(bs)[i] == e[i]);
                if is_unreserved(b) {
                    assert(((b as char) as u32) == b as u32);
                } else if i > 0 {
                    let d = if i == 1 {
                        b as int / 16
                    } else {
                        b as int % 16
                    };
                    assert(0 <= d < 16);
                    assert(e[i] == hex_upper(d));
                    assert((hex_upper(d) as u32) == if d < 10 {
                        48 + d
                    } else {
                        55 + d
                    });
                }
            } else {
                assert(percent_encode(bs)[i] == r[i - e.len()]);
            }
        }
    }
}


// ---------------------------------------------------------------------------
// Private addresses
// ---------------------------------------------------------------------------

/// An IP address: four octets, or eight 16-bit segments.
#[derive(Debug, Clone, Copy, PartialEq, Eq)]
pub enum IpAddress {
    V4([u8; 4]),
    V6([u16; 8]),
}

/// Whether an IPv4 address with first octets `a` and `b` is loopback,
/// private, link-local, carrier-grade NAT or "this network".
pub open spec fn private_v4_prefix(a: int, b: int) -> bool {
    ||| a == 127
    ||| a == 10
    ||| a == 0
    ||| (a == 169 && b == 254)
    ||| (a == 172 && 16 <= b <= 31)
    ||| (a == 192 && b == 168)
    ||| (a == 100 && 64 <= b <= 127)
}

/// Whether the segments are an IPv4-mapped IPv6 address (`::ffff:a.b.c.d`).
pub open spec fn is_v4_mapped(s: [u16; 8]) -> bool {
    s[0] == 0 && s[1] == 0 && s[2] == 0 && s[3] == 0 && s[4] == 0 && s[5] == 0xffff
}

/// Private IPv4 ranges, and their IPv6 counterparts: loopback, unique
/// local, link-local, and an IPv4-mapped address whose IPv4 part is
/// private.
pub open spec fn spec_is_private_ip(ip: IpAddress) -> bool {
    match ip {
        IpAddress::V4(o) => private_v4_prefix(o[0] as int, o[1] as int),
        IpAddress::V6(s) => {
            ||| (s[0] == 0 && s[1] == 0 && s[2] == 0 && s[3] == 0 && s[4] == 0 && s[5] == 0 && s[6]
                == 0 && s[7] == 1)
            ||| (s[0] & 0xfe00) == 0xfc00
            ||| (s[0] & 0xffc0) == 0xfe80
            ||| (is_v4_mapped(s) && private_v4_prefix(s[6] as int / 256, s[6] as int % 256))
        },
    }
}

/// Which addresses are private. IPv4: 0.0.0.0/8, 10.0.0.0/8, 127.0.0.0/8,
/// 169.254.0.0/16, 172.16.0.0/12, 192.168.0.0/16 and 100.64.0.0/10. IPv6:
/// `::1`, `fc00::/7`, `fe80::/10`, and `::ffff:a.b.c.d` exactly when
/// `a.b.c.d` is private.
pub proof fn lemma_private_addresses(o: [u8; 4], s: [u16; 8])
    ensures
        spec_is_private_ip(IpAddress::V4(o)) <==> {
            ||| o[0] == 0
            ||| o[0] == 10
            ||| o[0] == 127
            ||| (o[0] == 169 && o[1] == 254)
            ||| (o[0] == 172 && 16 <= o[1] <= 31)
            ||| (o[0] == 192 && o[1] == 168)
            ||| (o[0] == 100 && 64 <= o[1] <= 127)
        },
        (s[0] == 0 && s[1] == 0 && s[2] == 0 && s[3] == 0 && s[4] == 0 && s[5] == 0xffff && s[6]
            == o[0] * 256 + o[1] && s[7] == o[2] * 256 + o[3]) ==> (spec_is_private_ip(
            IpAddress::V6(s),
        ) <==> spec_is_private_ip(IpAddress::V4(o))),
        s[5] != 0xffff ==> (spec_is_private_ip(IpAddress::V6(s)) <==> {
            ||| (s[0] == 0 && s[1] == 0 && s[2] == 0 && s[3] == 0 && s[4] == 0 && s[5] == 0 && s[6]
                == 0 && s[7] == 1)
            ||| 0xfc00 <= s[0] <= 0xfdff
            ||| 0xfe80 <= s[0] <= 0xfebf
        }),
{
    let x = s[0];
    assert(((x & 0xfe00) == 0xfc00) <==> (0xfc00 <= x && x <= 0xfdff)) by (bit_vector);
    assert(((x & 0xffc0) == 0xfe80) <==> (0xfe80 <= x && x <= 0xfebf)) by (bit_vector);
    if s[6] == o[0] * 256 + o[1] {
        assert(s[6] as int / 256 == o[0] as int && s[6] as int % 256 == o[1] as int) by (
        nonlinear_arith)
            requires
                s[6] as int == o[0] as int * 256 + o[1] as int,
                0 <= o[1] < 256,
                0 <= o[0] < 256,
        ;
    }
}

fn is_private_v4_prefix(a: u16, b: u16) -> (r: bool)
    ensures
        r == private_v4_prefix(a as int, b as int),
{
    a == 127 || a == 10 || a == 0 || (a == 169 && b == 254) || (a == 172 && 16 <= b && b <= 31)
        || (a == 192 && b == 168) || (a == 100 && 64 <= b && b <= 127)
}

/// Whether `ip` lies in a range that must not be an upload target.
pub fn is_private_ip(ip: IpAddress) -> (r: bool)
    ensures
        r == spec_is_private_ip(ip),
{
    match ip {
        IpAddress::V4(o) => is_private_v4_prefix(o[0] as u16, o[1] as u16),
        IpAddress::V6(s) => {
            let mapped = s[0] == 0 && s[1] == 0 && s[2] == 0 && s[3] == 0 && s[4] == 0 && s[5]
                == 0xffff;
            (s[0] == 0 && s[1] == 0 && s[2] == 0 && s[3] == 0 && s[4] == 0 && s[5] == 0 && s[6]
                == 0 && s[7] == 1) || (s[0] & 0xfe00) == 0xfc00 || (s[0] & 0xffc0) == 0xfe80 || (
            mapped && is_private_v4_prefix(s[6] / 256, s[6] % 256))
        },
    }
}

/// The address to connect to, out of those a host name resolved to: the
/// first one, provided there is one and none of them is private.
pub fn pick_resolved_address(addrs: &Vec<IpAddress>) -> (res: Result<IpAddress, SpoutError>)
    ensures
        addrs@.len() == 0 ==> res matches Err(SpoutError::NoAddresses),
        addrs@.len() > 0 && (exists|i: int| 0 <= i < addrs@.len() && spec_is_private_ip(addrs@[i]))
            ==> res matches Err(SpoutError::PrivateIp),
        addrs@.len() > 0 && (forall|i: int| 0 <= i < addrs@.len() ==> !spec_is_private_ip(addrs@[i]))
            ==> res == Ok::<IpAddress, SpoutError>(addrs@[0]),
{
    if addrs.len() == 0 {
        return Err(SpoutError::NoAddresses);
    }
    let mut i: usize = 0;
    while i < addrs.len()
        invariant
            i <= addrs@.len(),
            forall|j: int| 0 <= j < i ==> !spec_is_private_ip(addrs@[j]),
        decreases addrs@.len() - i,
    {
        if is_private_ip(addrs[i]) {
            return Err(SpoutError::PrivateIp);
        }
        i += 1;
    }
    Ok(addrs[0])
}

// ---------------------------------------------------------------------------
// URLs
// ---------------------------------------------------------------------------

#[verifier::external_type_specification]
#[verifier::external_body]
pub struct ExUrl(url::Url);

#[verifier::external_type_specification]
#[verifier::external_body]
pub struct ExUrlParseError(url::ParseError);

/// Whether `url::Url::parse` accepts `raw` as an absolute URL.
pub uninterp spec fn url_parses(raw: Seq<char>) -> bool;

/// The URL that `url::Url::parse` gives for `raw`, where it accepts it.
pub uninterp spec fn url_from(raw: Seq<char>) -> url::Url;

/// `url::Url::scheme` of the URL that `raw` parses to.
pub uninterp spec fn url_scheme(raw: Seq<char>) -> Seq<char>;

/// `url::Url::host_str` of the URL that `raw` parses to.
pub uninterp spec fn url_host(raw: Seq<char>) -> Option<Seq<char>>;

/// `url::Url::port_or_known_default` of the URL that `raw` parses to.
pub uninterp spec fn url_port(raw: Seq<char>) -> Option<u16>;

/// Calls `url::Url::parse`; whether it succeeds is `url_parses` of the text,
/// and the URL it gives is `url_from` of the text, a function of the text
/// alone.
#[verifier::external_body]
fn url_parse(raw: &str) -> (res: Result<url::Url, url::ParseError>)
    ensures
        res is Ok <==> url_parses(raw@),
        res matches Ok(u) ==> u == url_from(raw@),
{
    url::Url::parse(raw)
}

/// Calls `Display` of `url::ParseError`: the description of a parse failure.
/// Nothing is claimed of the text.
#[verifier::external_body]
fn url_error_text(e: &url::ParseError) -> String {
    e.to_string()
}

/// A URL together with the text it was parsed from; its view is that text,
/// and its URL is always the one `url::Url::parse` gives for that text.
pub struct ParsedUrl {
    url: url::Url,
    source: Ghost<Seq<char>>,
}

impl View for ParsedUrl {
    type V = Seq<char>;

    closed spec fn view(&self) -> Seq<char> {
        self.source@
    }
}

impl ParsedUrl {
    #[verifier::type_invariant]
    spec fn parsed_from_source(self) -> bool {
        self.url == url_from(self.source@)
    }
}

/// Calls `url::Url::scheme` on the URL held by `u`, which is `url_from(u@)`.
#[verifier::external_body]
fn url_scheme_of(u: &ParsedUrl) -> (r: String)
    requires
        u.url == url_from(u@),
    ensures
        r@ == url_scheme(u@),
{
    u.url.scheme().to_string()
}

/// Calls `url::Url::host_str` on the URL held by `u`, which is `url_from(u@)`.
#[verifier::external_body]
fn url_host_of(u: &ParsedUrl) -> (r: Option<String>)
    requires
        u.url == url_from(u@),
    ensures
        match r {
            Some(h) => url_host(u@) == Some(h@),
            None => url_host(u@) is None,
        },
{
    match u.url.host_str() {
        Some(h) => Some(h.to_string()),
        None => None,
    }
}

/// Calls `url::Url::port_or_known_default` on the URL held by `u`, which is
/// `url_from(u@)`.
#[verifier::external_body]
fn url_port_of(u: &ParsedUrl) -> (r: Option<u16>)
    requires
        u.url == url_from(u@),
    ensures
        r == url_port(u@),
{
    u.url.port_or_known_default()
}

impl ParsedUrl {
    /// Parses `raw` as an absolute URL; the error is the parser's description.
    pub fn parse(raw: &str) -> (res: Result<ParsedUrl, String>)
        ensures
            res is Ok <==> url_parses(raw@),
            res matches Ok(u) ==> u@ == raw@,
    {
        match url_parse(raw) {
            Ok(url) => Ok(ParsedUrl { url, source: Ghost(raw@) }),
            Err(e) => Err(url_error_text(&e)),
        }
    }

    /// The parsed URL: the one `url::Url::parse` gives for the view.
    pub fn as_url(&self) -> (r: &url::Url)
        ensures
            *r == url_from(self@),
    {
        proof {
            use_type_invariant(self);
        }
        &self.url
    }

    /// The URL's scheme, in lower case.
    pub fn scheme(&self) -> (r: String)
        ensures
            r@ == url_scheme(self@),
    {
        proof {
            use_type_invariant(self);
        }
        url_scheme_of(self)
    }
}

/// The schemes an upload may use.
pub open spec fn is_http_scheme(s: Seq<char>) -> bool {
    s == "http"@ || s == "https"@
}

/// Whether `s` is `http` or `https`.
fn http_scheme(s: &String) -> (r: bool)
    ensures
        r == is_http_scheme(s@),
{
    proof {
        reveal_strlit("http");
        reveal_strlit("https");
    }
    let v = chars_of(s.as_str());
    let r = (v.len() == 4 || (v.len() == 5 && v[4] == 's')) && v[0] == 'h' && v[1] == 't' && v[2]
        == 't' && v[3] == 'p';
    proof {
        if r {
            if v@.len() == 4 {
                assert(v@ =~= "http"@);
            } else {
                assert(v@ =~= "https"@);
            }
        } else {
            if v@ == "http"@ {
                assert(v@[0] == 'h' && v@[1] == 't' && v@[2] == 't' && v@[3] == 'p');
            }
            if v@ == "https"@ {
                assert(v@[0] == 'h' && v@[1] == 't' && v@[2] == 't' && v@[3] == 'p' && v@[4] == 's');
            }
        }
    }
    r
}

/// Parses `raw` as an `http` or `https` URL.
pub fn parse_http_url(raw: &str) -> (res: Result<ParsedUrl, SpoutError>)
    ensures
        !url_parses(raw@) ==> res matches Err(SpoutError::InvalidUrl(_)),
        url_parses(raw@) && !is_http_scheme(url_scheme(raw@)) ==> (res matches Err(
            SpoutError::UnsupportedScheme(s),
        ) && s@ == url_scheme(raw@)),
        url_parses(raw@) && is_http_scheme(url_scheme(raw@)) ==> (res matches Ok(u) && u@ == raw@),
{
    let url = match ParsedUrl::parse(raw) {
        Ok(u) => u,
        Err(e) => return Err(SpoutError::InvalidUrl(e)),
    };
    let scheme = url.scheme();
    if http_scheme(&scheme) {
        Ok(url)
    } else {
        Err(SpoutError::UnsupportedScheme(scheme))
    }
}

/// The upload endpoint of `raw`, with the host and port to connect to.
pub fn resolve_target(raw: &str) -> (res: Result<(ParsedUrl, String, u16), SpoutError>)
    ensures
        !url_parses(raw@) ==> res matches Err(SpoutError::InvalidUrl(_)),
        url_parses(raw@) && !is_http_scheme(url_scheme(raw@)) ==> (res matches Err(
            SpoutError::UnsupportedScheme(s),
        ) && s@ == url_scheme(raw@)),
        url_parses(raw@) && is_http_scheme(url_scheme(raw@)) && url_host(raw@) is None ==> res
            matches Err(SpoutError::NoHost),
        url_parses(raw@) && is_http_scheme(url_scheme(raw@)) && url_host(raw@) is Some && url_port(
            raw@,
        ) is None ==> res matches Err(SpoutError::NoPort),
        url_parses(raw@) && is_http_scheme(url_scheme(raw@)) && url_host(raw@) is Some && url_port(
            raw@,
        ) is Some ==> (res matches Ok((u, h, p)) && u@ == raw@ && Some(h@) == url_host(raw@) && Some(
            p,
        ) == url_port(raw@)),
{
    let url = parse_http_url(raw)?;
    proof {
        use_type_invariant(&url);
    }
    let host = match url_host_of(&url) {
        Some(h) => h,
        None => return Err(SpoutError::NoHost),
    };
    let port = match url_port_of(&url) {
        Some(p) => p,
        None => return Err(SpoutError::NoPort),
    };
    Ok((url, host, port))
}

/// Whether a URL taken from a response is acceptable: at most `MAX_URL_LEN`
/// bytes, a valid absolute URL, with scheme `http` or `https`.
pub open spec fn url_passes(u: Seq<char>) -> bool {
    encode_utf8(u).len() <= MAX_URL_LEN && url_parses(u) && is_http_scheme(url_scheme(u))
}

/// The error for a URL taken from a response that is not acceptable: the
/// first check it fails.
pub open spec fn url_check_error(u: Seq<char>, e: SpoutError) -> bool {
    if encode_utf8(u).len() > MAX_URL_LEN {
        e is ResponseTooLarge
    } else if !url_parses(u) {
        e is ResponseInvalidUrl
    } else {
        e matches SpoutError::ResponseUnexpectedScheme(s) && s@ == url_scheme(u)
    }
}

/// A URL taken from a response passes exactly when it is at most 2048 bytes
/// of UTF-8, parses as an absolute URL, and has the scheme `http` or
/// `https`.
pub proof fn lemma_response_url_rule(u: Seq<char>)
    ensures
        url_passes(u) <==> (encode_utf8(u).len() <= 2048 && url_parses(u) && (url_scheme(u)
            == seq!['h', 't', 't', 'p'] || url_scheme(u) == seq!['h', 't', 't', 'p', 's'])),
{
    reveal_strlit("http");
    reveal_strlit("https");
    assert("http"@ =~= seq!['h', 't', 't', 'p']);
    assert("https"@ =~= seq!['h', 't', 't', 'p', 's']);
}

/// What checking the URL `u` taken from a response gives, with the URL
/// itself when it passes.
pub open spec fn url_check_outcome(u: Seq<char>, res: Result<String, SpoutError>) -> bool {
    if url_passes(u) {
        res matches Ok(s) && s@ == u
    } else {
        res matches Err(e) && url_check_error(u, e)
    }
}

/// Checks a URL taken from a response: at most `MAX_URL_LEN` bytes, a valid
/// absolute URL, with scheme `http` or `https`.
pub fn validate_response_url(value: &str) -> (res: Result<(), SpoutError>)
    ensures
        res is Ok <==> url_passes(value@),
        res matches Err(e) ==> url_check_error(value@, e),
{
    if value.as_bytes().len() > MAX_URL_LEN {
        return Err(SpoutError::ResponseTooLarge);
    }
    let url = match ParsedUrl::parse(value) {
        Ok(u) => u,
        Err(e) => return Err(SpoutError::ResponseInvalidUrl(e)),
    };
    let scheme = url.scheme();
    if http_scheme(&scheme) {
        Ok(())
    } else {
        Err(SpoutError::ResponseUnexpectedScheme(scheme))
    }
}


// ---------------------------------------------------------------------------
// JSON responses
// ---------------------------------------------------------------------------

/// One step into a JSON document: a member of an object, or an element of
/// an array.
pub enum JsonHop {
    Key(Seq<char>),
    Index(nat),
}

#[verifier::external_type_specification]
#[verifier::external_body]
pub struct ExJsonValue(serde_json::Value);

#[verifier::external_type_specification]
#[verifier::external_body]
pub struct ExJsonError(serde_json::Error);

/// Whether `serde_json::from_str::<serde_json::Value>` accepts `body`.
pub uninterp spec fn json_parses(body: Seq<char>) -> bool;

/// The node that `route` leads to in the document parsed from `body`: the
/// document itself for the empty route, and for a longer one the value that
/// `serde_json::Value::get` hands back for the route's last step, taken from
/// the node the rest of the route leads to.
pub uninterp spec fn json_node(body: Seq<char>, route: Seq<JsonHop>) -> serde_json::Value;

/// Whether `serde_json::Value::get` with the key `key` finds something in
/// the node that `route` leads to in the document parsed from `body`.
pub uninterp spec fn json_has_key(body: Seq<char>, route: Seq<JsonHop>, key: Seq<char>) -> bool;

/// Whether `serde_json::Value::get` with the index `i` finds something in
/// the node that `route` leads to in the document parsed from `body`.
pub uninterp spec fn json_has_index(body: Seq<char>, route: Seq<JsonHop>, i: nat) -> bool;

/// `serde_json::Value::as_str` of the node that `route` leads to in the
/// document parsed from `body`.
pub uninterp spec fn json_str(body: Seq<char>, route: Seq<JsonHop>) -> Option<Seq<char>>;

/// A node of a parsed JSON document; its view is the text of the document
/// and the route to the node, and its value is always the node that route
/// leads to.
pub struct JsonNode<'a> {
    value: &'a serde_json::Value,
    body: Ghost<Seq<char>>,
    route: Ghost<Seq<JsonHop>>,
}

impl<'a> View for JsonNode<'a> {
    type V = (Seq<char>, Seq<JsonHop>);

    closed spec fn view(&self) -> (Seq<char>, Seq<JsonHop>) {
        (self.body@, self.route@)
    }
}

impl<'a> JsonNode<'a> {
    #[verifier::type_invariant]
    spec fn follows_route(self) -> bool {
        *self.value == json_node(self.body@, self.route@)
    }
}

/// Calls `serde_json::from_str::<serde_json::Value>`; whether it succeeds
/// is `json_parses` of the text, and the document it gives is the node of
/// the empty route.
#[verifier::external_body]
fn json_from_str(body: &str) -> (res: Result<serde_json::Value, serde_json::Error>)
    ensures
        res is Ok <==> json_parses(body@),
        res matches Ok(v) ==> v == json_node(body@, Seq::empty()),
{
    serde_json::from_str::<serde_json::Value>(body)
}

/// Calls `Display` of `serde_json::Error`. Nothing is claimed of the text.
#[verifier::external_body]
fn json_error_text(e: &serde_json::Error) -> String {
    e.to_string()
}

/// Calls `serde_json::Value::get` with a key on the value of `n`, which is
/// the node `n@.1` leads to; what it finds is the node one step further.
#[verifier::external_body]
fn json_get_key<'a>(n: &JsonNode<'a>, key: &str) -> (r: Option<&'a serde_json::Value>)
    requires
        *n.value == json_node(n@.0, n@.1),
    ensures
        r is Some <==> json_has_key(n@.0, n@.1, key@),
        r matches Some(v) ==> *v == json_node(n@.0, n@.1.push(JsonHop::Key(key@))),
{
    n.value.get(key)
}

/// Calls `serde_json::Value::get` with an index on the value of `n`, which
/// is the node `n@.1` leads to; what it finds is the node one step further.
#[verifier::external_body]
fn json_get_index<'a>(n: &JsonNode<'a>, i: usize) -> (r: Option<&'a serde_json::Value>)
    requires
        *n.value == json_node(n@.0, n@.1),
    ensures
        r is Some <==> json_has_index(n@.0, n@.1, i as nat),
        r matches Some(v) ==> *v == json_node(n@.0, n@.1.push(JsonHop::Index(i as nat))),
{
    n.value.get(i)
}

/// Calls `serde_json::Value::as_str` on the value of `n`, which is the node
/// `n@.1` leads to.
#[verifier::external_body]
fn json_as_str(n: &JsonNode) -> (r: Option<String>)
    requires
        *n.value == json_node(n@.0, n@.1),
    ensures
        match r {
            Some(s) => json_str(n@.0, n@.1) == Some(s@),
            None => json_str(n@.0, n@.1) is None,
        },
{
    match n.value.as_str() {
        Some(s) => Some(s.to_string()),
        None => None,
    }
}

/// One step along a response path: the member named `key`, or else, if
/// `key` is a number, the array element at that index.
pub open spec fn json_hop(body: Seq<char>, route: Seq<JsonHop>, key: Seq<char>) -> Option<JsonHop> {
    if json_has_key(body, route, key) {
        Some(JsonHop::Key(key))
    } else {
        match spec_parse_usize(key) {
            Some(i) => if json_has_index(body, route, i as nat) {
                Some(JsonHop::Index(i as nat))
            } else {
                None
            },
            None => None,
        }
    }
}

/// The route that `keys` take from the node at `route`, or the first key
/// that leads nowhere.
pub open spec fn json_route(body: Seq<char>, route: Seq<JsonHop>, keys: Seq<Seq<char>>) -> Result<
    Seq<JsonHop>,
    Seq<char>,
>
    decreases keys.len(),
{
    if keys.len() == 0 {
        Ok(route)
    } else {
        match json_hop(body, route, keys[0]) {
            Some(h) => json_route(body, route.push(h), keys.drop_first()),
            None => Err(keys[0]),
        }
    }
}

/// The text a response path picks out of a response body, if it picks one.
pub open spec fn extracted(body: Seq<char>, path: Seq<char>) -> Option<Seq<char>> {
    if path == "."@ {
        Some(trim(body))
    } else if !json_parses(body) {
        None
    } else {
        match json_route(body, Seq::empty(), split_on(path, '.')) {
            Ok(r) => json_str(body, r),
            Err(_) => None,
        }
    }
}

/// What `extract_response_value` gives for `body` and `path`.
pub open spec fn extract_outcome(body: Seq<char>, path: Seq<char>, res: Result<String, SpoutError>) -> bool {
    if path == "."@ {
        res matches Ok(s) && s@ == trim(body)
    } else if !json_parses(body) {
        res matches Err(SpoutError::InvalidJson(_))
    } else {
        match json_route(body, Seq::empty(), split_on(path, '.')) {
            Err(k) => res matches Err(SpoutError::KeyNotFound(key)) && key@ == k,
            Ok(r) => match json_str(body, r) {
                Some(t) => res matches Ok(s) && s@ == t,
                None => res matches Err(SpoutError::NotAString(p)) && p@ == path,
            },
        }
    }
}

/// The path `.` picks out the whole body with its surrounding whitespace
/// removed, whether or not the body is JSON; any other path reads the body
/// as JSON.
pub proof fn lemma_dot_path(body: Seq<char>, path: Seq<char>)
    ensures
        extracted(body, seq!['.']) == Some(trim(body)),
        path != seq!['.'] && !json_parses(body) ==> extracted(body, path) is None,
{
    reveal_strlit(".");
    assert("."@ =~= seq!['.']);
}

/// One step along a path: a key that names a member of the node is followed
/// to that member, even if it is a number; otherwise a key that reads as a
/// number `i` (`usize::from_str`) is followed to element `i` of the node,
/// if there is one; otherwise the step fails.
pub proof fn lemma_json_step_rule(body: Seq<char>, route: Seq<JsonHop>, key: Seq<char>)
    ensures
        json_has_key(body, route, key) ==> json_hop(body, route, key) == Some(JsonHop::Key(key)),
        !json_has_key(body, route, key) && spec_parse_usize(key) is Some ==> json_hop(
            body,
            route,
            key,
        ) == if json_has_index(body, route, spec_parse_usize(key)->0 as nat) {
            Some(JsonHop::Index(spec_parse_usize(key)->0 as nat))
        } else {
            None
        },
        !json_has_key(body, route, key) && spec_parse_usize(key) is None ==> json_hop(
            body,
            route,
            key,
        ) is None,
{
}

/// A response path other than `.` is a list of keys with a dot between each
/// two: for keys `k1`, ..., `kn` that hold no dot, the path `k1.k2. ... .kn`
/// picks out the string that following those keys, one after another from
/// the top of the JSON document, leads to.
pub proof fn lemma_path_keys(body: Seq<char>, keys: Seq<Seq<char>>)
    requires
        keys.len() >= 1,
        forall|i: int, j: int|
            0 <= i < keys.len() && 0 <= j < keys[i].len() ==> #[trigger] keys[i][j] != '.',
        join_with(keys, '.') != seq!['.'],
        json_parses(body),
    ensures
        extracted(body, join_with(keys, '.')) == match json_route(body, Seq::empty(), keys) {
            Ok(r) => json_str(body, r),
            Err(_) => None,
        },
{
    reveal_strlit(".");
    assert("."@ =~= seq!['.']);
    lemma_split_join(keys, '.');
}

/// Takes one step from `n` along the key `key`.
fn json_step<'a>(n: &JsonNode<'a>, key: &[char]) -> (r: Option<JsonNode<'a>>)
    ensures
        match json_hop(n@.0, n@.1, key@) {
            Some(h) => r matches Some(m) && m@ == (n@.0, n@.1.push(h)),
            None => r is None,
        },
{
    proof {
        use_type_invariant(n);
    }
    let k = string_from_chars(key, 0, key.len());
    assert(k@ =~= key@);
    if let Some(v) = json_get_key(n, k.as_str()) {
        return Some(JsonNode { value: v, body: Ghost(n.body@), route: Ghost(n.route@.push(JsonHop::Key(key@))) });
    }
    match parse_usize(key) {
        Some(i) => match json_get_index(n, i) {
            Some(v) => Some(
                JsonNode { value: v, body: Ghost(n.body@), route: Ghost(n.route@.push(JsonHop::Index(i as nat))) },
            ),
            None => None,
        },
        None => None,
    }
}

/// Picks the URL out of an upload response. With the path `.` it is the
/// whole body, trimmed; otherwise the body is JSON and the path names, key
/// by key with dots between, a string inside it. A key that names no member
/// of an object is read as an index into an array if it is a number.
pub fn extract_response_value(body: &str, path: &str) -> (res: Result<String, SpoutError>)
    ensures
        extract_outcome(body@, path@, res),
{
    let p = chars_of(path);
    proof {
        reveal_strlit(".");
    }
    if p.len() == 1 && p[0] == '.' {
        assert(p@ =~= "."@);
        let b = chars_of(body);
        let (lo, hi) = trim_bounds(b.as_slice());
        return Ok(string_from_chars(b.as_slice(), lo, hi));
    }
    assert(path@ != "."@) by {
        if path@ == "."@ {
            assert(p@.len() == 1 && p@[0] == '.');
        }
    }
    let doc = match json_from_str(body) {
        Ok(v) => v,
        Err(e) => return Err(SpoutError::InvalidJson(json_error_text(&e))),
    };
    let keys = split(p.as_slice(), '.');
    let ghost all = split_on(path@, '.');
    let mut cur = JsonNode { value: &doc, body: Ghost(body@), route: Ghost(Seq::empty()) };
    let mut i: usize = 0;
    assert(all.subrange(0, all.len() as int) =~= all);
    while i < keys.len()
        invariant
            path@ != "."@,
            json_parses(body@),
            all == split_on(path@, '.'),
            i <= keys@.len() == all.len(),
            forall|k: int| 0 <= k < keys@.len() ==> #[trigger] keys@[k]@ == all[k],
            cur@.0 == body@,
            json_route(body@, Seq::empty(), all) == json_route(
                body@,
                cur@.1,
                all.subrange(i as int, all.len() as int),
            ),
        decreases keys@.len() - i,
    {
        let ghost rest = all.subrange(i as int, all.len() as int);
        assert(rest[0] == keys@[i as int]@);
        assert(rest.drop_first() =~= all.subrange(i + 1, all.len() as int));
        match json_step(&cur, keys[i].as_slice()) {
            Some(next) => {
                cur = next;
            },
            None => {
                let k = &keys[i];
                let key = string_from_chars(k.as_slice(), 0, k.len());
                assert(key@ =~= k@);
                return Err(SpoutError::KeyNotFound(key));
            },
        }
        i += 1;
    }
    assert(all.subrange(i as int, all.len() as int) =~= Seq::<Seq<char>>::empty());
    proof {
        use_type_invariant(&cur);
    }
    match json_as_str(&cur) {
        Some(t) => Ok(t),
        None => Err(SpoutError::NotAString(path.to_owned())),
    }
}

} // verus!
