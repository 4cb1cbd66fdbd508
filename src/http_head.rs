//! The request line of an HTTP CONNECT request.

use vstd::prelude::*;
use vstd::slice::{slice_subrange, slice_to_vec};
use vstd::utf8::{
    decode_utf8, encode_utf8, encode_utf8_decode_utf8, encode_utf8_valid_utf8,
    length_of_first_scalar, pop_first_scalar, valid_first_scalar, valid_utf8,
};

verus! {

/// Why a request line was not taken.
#[derive(Clone, Copy, Debug, PartialEq, Eq, Structural)]
pub enum ParseError {
    /// The first token is not `CONNECT`.
    NotConnect,
    /// The port is not a decimal number that fits in 16 bits.
    BadPort,
    /// A token is missing, or the authority is not UTF-8.
    Malformed,
}

/// The fields of a CONNECT request line, copied out of the received bytes.
#[derive(Debug)]
pub struct HttpHead {
    pub command: Vec<u8>,
    pub domain: String,
    pub port: u16,
    pub method: Vec<u8>,
}

/// The fields of a request line as the bytes they came from.
pub struct HeadModel {
    pub domain: Seq<u8>,
    pub port: u16,
    pub method: Seq<u8>,
}

pub const CR: u8 = 13;

pub const SPACE: u8 = 32;

pub const COLON: u8 = 58;

pub const PLUS: u8 = 43;

pub const DEFAULT_PORT: u16 = 443;

/// The word `CONNECT` in ASCII.
pub open spec fn connect_word() -> Seq<u8> {
    seq![67u8, 79u8, 78u8, 78u8, 69u8, 67u8, 84u8]
}

/// The index of the first `sep` at or after `from`, or the length when
/// there is none.
pub open spec fn field_end(s: Seq<u8>, from: int, sep: u8) -> int
    decreases s.len() - from,
{
    if from >= s.len() {
        s.len() as int
    } else if s[from] == sep {
        from
    } else {
        field_end(s, from + 1, sep)
    }
}

pub open spec fn is_digit(b: u8) -> bool {
    48 <= b <= 57
}

/// The number that a string of decimal digits writes.
pub open spec fn digits_value(s: Seq<u8>) -> int
    decreases s.len(),
{
    if s.len() == 0 {
        0
    } else {
        digits_value(s.drop_last()) * 10 + (s.last() - 48)
    }
}

/// The digits of a port's text: all of it but a leading `+`.
pub open spec fn port_digits(t: Seq<u8>) -> Seq<u8> {
    if t.len() > 0 && t[0] == PLUS {
        t.subrange(1, t.len() as int)
    } else {
        t
    }
}

pub open spec fn all_digits(d: Seq<u8>) -> bool {
    forall|i: int| 0 <= i < d.len() ==> is_digit(#[trigger] d[i])
}

/// A port as text: an optional `+`, then one or more decimal digits whose
/// value fits in 16 bits.
pub open spec fn port_value(t: Seq<u8>) -> Option<u16> {
    let d = port_digits(t);
    if d.len() > 0 && all_digits(d) && digits_value(d) <= 65535 {
        Some(digits_value(d) as u16)
    } else {
        None
    }
}

/// What a request line reads as. The line ends at the first carriage return;
/// its tokens are separated by single spaces, and those after the third are
/// not looked at. The authority splits at its first colon into host and port.
pub open spec fn head_of(input: Seq<u8>) -> Result<HeadModel, ParseError> {
    let line = input.subrange(0, field_end(input, 0, CR));
    let e1 = field_end(line, 0, SPACE);
    if line.subrange(0, e1) != connect_word() {
        Err(ParseError::NotConnect)
    } else if e1 >= line.len() {
        Err(ParseError::Malformed)
    } else {
        let e2 = field_end(line, e1 + 1, SPACE);
        let auth = line.subrange(e1 + 1, e2);
        let c = field_end(auth, 0, COLON);
        let host = auth.subrange(0, c);
        if !valid_utf8(auth) {
            Err(ParseError::Malformed)
        } else {
            let port = if c < auth.len() {
                port_value(auth.subrange(c + 1, auth.len() as int))
            } else {
                Some(DEFAULT_PORT)
            };
            match port {
                None => Err(ParseError::BadPort),
                Some(p) => if e2 >= line.len() {
                    Err(ParseError::Malformed)
                } else {
                    Ok(
                        HeadModel {
                            domain: host,
                            port: p,
                            method: line.subrange(e2 + 1, field_end(line, e2 + 1, SPACE)),
                        },
                    )
                },
            }
        }
    }
}

/// Relies on std's `String::from_utf8`: it succeeds exactly on well-formed
/// UTF-8, and the string holds the characters that the bytes encode.
#[verifier::external_body]
fn string_from_utf8(bytes: Vec<u8>) -> (r: Option<String>)
    ensures
        r is Some <==> valid_utf8(bytes@),
        r matches Some(s) ==> s@ == decode_utf8(bytes@),
{
    String::from_utf8(bytes).ok()
}

/// The index of the first `sep` in `s` at or after `from`, or the length.
fn find_byte(s: &[u8], from: usize, sep: u8) -> (r: usize)
    requires
        from <= s@.len(),
    ensures
        r == field_end(s@, from as int, sep),
        from <= r <= s@.len(),
        r < s@.len() ==> s@[r as int] == sep,
{
    let mut i = from;
    while i < s.len()
        invariant
            from <= i <= s@.len(),
            field_end(s@, i as int, sep) == field_end(s@, from as int, sep),
        decreases s@.len() - i,
    {
        if s[i] == sep {
            return i;
        }
        i = i + 1;
    }
    i
}

fn is_connect(w: &[u8]) -> (r: bool)
    ensures
        r == (w@ == connect_word()),
{
    if w.len() != 7 {
        return false;
    }
    let ok = w[0] == 67 && w[1] == 79 && w[2] == 78 && w[3] == 78 && w[4] == 69 && w[5] == 67
        && w[6] == 84;
    if ok {
        assert(w@ =~= connect_word());
    }
    ok
}

/// Reads a port number: an optional `+`, then decimal digits, at most 65535.
pub fn parse_port(t: &[u8]) -> (r: Option<u16>)
    ensures
        r == port_value(t@),
{
    let d = if t.len() > 0 && t[0] == PLUS {
        slice_subrange(t, 1, t.len())
    } else {
        t
    };
    assert(d@ == port_digits(t@));
    if d.len() == 0 {
        return None;
    }
    let mut acc: u32 = 0;
    let mut i: usize = 0;
    while i < d.len()
        invariant
            d@ == port_digits(t@),
            0 <= i <= d@.len(),
            forall|j: int| 0 <= j < i ==> is_digit(#[trigger] d@[j]),
            digits_value(d@.subrange(0, i as int)) >= 0,
            acc as int == if digits_value(d@.subrange(0, i as int)) <= 65535 {
                digits_value(d@.subrange(0, i as int))
            } else {
                65536
            },
        decreases d@.len() - i,
    {
        let b = d[i];
        if b < 48 || b > 57 {
            assert(!is_digit(d@[i as int]));
            return None;
        }
        proof {
            let next = d@.subrange(0, i + 1);
            assert(next.drop_last() =~= d@.subrange(0, i as int));
        }
        let v = acc * 10 + (b - 48) as u32;
        acc = if v > 65535 {
            65536
        } else {
            v
        };
        i = i + 1;
    }
    assert(d@.subrange(0, i as int) =~= d@);
    if acc > 65535 {
        None
    } else {
        Some(acc as u16)
    }
}

/// Reads the request line of a CONNECT request: command, host, port (443
/// when absent) and version token, each copied out of `input`.
pub fn parse_http_head(input: &[u8]) -> (r: Result<HttpHead, ParseError>)
    ensures
        match r {
            Ok(h) => head_of(input@) matches Ok(m) && h.command@ == connect_word() && h.domain@
                == decode_utf8(m.domain) && h.port == m.port && h.method@ == m.method,
            Err(e) => head_of(input@) == Err::<HeadModel, ParseError>(e),
        },
{
    let line = slice_subrange(input, 0, find_byte(input, 0, CR));
    let e1 = find_byte(line, 0, SPACE);
    let command = slice_subrange(line, 0, e1);
    if !is_connect(command) {
        return Err(ParseError::NotConnect);
    }
    if e1 >= line.len() {
        return Err(ParseError::Malformed);
    }
    let e2 = find_byte(line, e1 + 1, SPACE);
    let auth = slice_subrange(line, e1 + 1, e2);
    let c = find_byte(auth, 0, COLON);
    let host = slice_subrange(auth, 0, c);
    if string_from_utf8(slice_to_vec(auth)).is_none() {
        return Err(ParseError::Malformed);
    }
    proof {
        if c < auth@.len() {
            assert(auth@ =~= host@ + auth@.subrange(c as int, auth@.len() as int));
            lemma_valid_utf8_prefix(host@, auth@.subrange(c as int, auth@.len() as int));
        } else {
            assert(auth@ =~= host@);
        }
    }
    let domain = match string_from_utf8(slice_to_vec(host)) {
        Some(s) => s,
        None => {
            return Err(ParseError::Malformed);
        },
    };
    let port = if c < auth.len() {
        parse_port(slice_subrange(auth, c + 1, auth.len()))
    } else {
        Some(DEFAULT_PORT)
    };
    let port = match port {
        Some(p) => p,
        None => {
            return Err(ParseError::BadPort);
        },
    };
    if e2 >= line.len() {
        return Err(ParseError::Malformed);
    }
    let e3 = find_byte(line, e2 + 1, SPACE);
    let method = slice_to_vec(slice_subrange(line, e2 + 1, e3));
    Ok(HttpHead { command: slice_to_vec(command), domain, port, method })
}

/// The first scalar of `a` is also the first scalar of `a + b`.
proof fn lemma_first_scalar_of_concat(a: Seq<u8>, b: Seq<u8>)
    requires
        a.len() > 0,
        valid_first_scalar(a),
    ensures
        valid_first_scalar(a + b),
        length_of_first_scalar(a + b) == length_of_first_scalar(a),
        pop_first_scalar(a + b) == pop_first_scalar(a) + b,
{
    let ab = a + b;
    assert(ab[0] == a[0]);
    if a.len() > 1 {
        assert(ab[1] == a[1]);
    }
    if a.len() > 2 {
        assert(ab[2] == a[2]);
    }
    if a.len() > 3 {
        assert(ab[3] == a[3]);
    }
    assert(pop_first_scalar(ab) =~= pop_first_scalar(a) + b);
}

/// Well-formed UTF-8 stays well-formed when another such string follows.
proof fn lemma_valid_utf8_concat(a: Seq<u8>, b: Seq<u8>)
    requires
        valid_utf8(a),
        valid_utf8(b),
    ensures
        valid_utf8(a + b),
    decreases a.len(),
{
    if a.len() == 0 {
        assert(a + b =~= b);
    } else {
        lemma_first_scalar_of_concat(a, b);
        lemma_valid_utf8_concat(pop_first_scalar(a), b);
    }
}

/// Bytes below 0x80 are well-formed UTF-8, one character each.
proof fn lemma_ascii_valid_utf8(s: Seq<u8>)
    requires
        forall|i: int| 0 <= i < s.len() ==> #[trigger] s[i] < 0x80,
    ensures
        valid_utf8(s),
    decreases s.len(),
{
    if s.len() > 0 {
        let b = s[0];
        assert((b & 0x7F) <= 0x7F) by (bit_vector);
        assert(valid_first_scalar(s));
        lemma_ascii_valid_utf8(pop_first_scalar(s));
    }
}

/// What comes before a byte below 0x80 in well-formed UTF-8 is well-formed:
/// such a byte never continues a character.
proof fn lemma_valid_utf8_prefix(h: Seq<u8>, s: Seq<u8>)
    requires
        valid_utf8(h + s),
        s.len() > 0,
        s[0] < 0x80,
    ensures
        valid_utf8(h),
    decreases h.len(),
{
    if h.len() > 0 {
        let hs = h + s;
        let l = length_of_first_scalar(hs);
        assert(hs[h.len() as int] == s[0]);
        assert(l <= h.len());
        assert(hs[0] == h[0]);
        if h.len() > 1 {
            assert(hs[1] == h[1]);
        }
        if h.len() > 2 {
            assert(hs[2] == h[2]);
        }
        if h.len() > 3 {
            assert(hs[3] == h[3]);
        }
        assert(valid_first_scalar(h));
        assert(pop_first_scalar(hs) =~= pop_first_scalar(h) + s);
        lemma_valid_utf8_prefix(pop_first_scalar(h), s);
    }
}

/// Whether a byte string holds no `b`.
pub open spec fn free_of(s: Seq<u8>, b: u8) -> bool {
    forall|i: int| 0 <= i < s.len() ==> s[i] != b
}

/// `<host>` or `<host>:<port>`.
pub open spec fn authority(host: Seq<u8>, port: Option<Seq<u8>>) -> Seq<u8> {
    match port {
        Some(d) => host + seq![COLON] + d,
        None => host,
    }
}

/// The bytes `CONNECT <authority> <version>\r`.
pub open spec fn connect_line(auth: Seq<u8>, version: Seq<u8>) -> Seq<u8> {
    connect_word() + seq![SPACE] + auth + seq![SPACE] + version + seq![CR]
}

proof fn lemma_field_end_at(s: Seq<u8>, from: int, k: int, sep: u8)
    requires
        0 <= from <= k <= s.len(),
        forall|i: int| from <= i < k ==> s[i] != sep,
        k == s.len() || s[k] == sep,
    ensures
        field_end(s, from, sep) == k,
    decreases k - from,
{
    if from < k {
        lemma_field_end_at(s, from + 1, k, sep);
    }
}

/// A well-formed request line `CONNECT <host>[:<port>] <version>`, whatever
/// follows its carriage return, reads as that host, that port (443 when none
/// is written) and that version token; the host's characters come back as
/// they were written.
pub proof fn lemma_well_formed_line(host: Seq<char>, port: Option<Seq<u8>>, version: Seq<u8>, after: Seq<u8>)
    requires
        free_of(encode_utf8(host), SPACE),
        free_of(encode_utf8(host), CR),
        free_of(encode_utf8(host), COLON),
        free_of(version, SPACE),
        free_of(version, CR),
        port matches Some(d) ==> d.len() > 0 && all_digits(d) && digits_value(d) <= 65535,
    ensures
        head_of(connect_line(authority(encode_utf8(host), port), version) + after) == Ok::<
            HeadModel,
            ParseError,
        >(
            HeadModel {
                domain: encode_utf8(host),
                port: match port {
                    Some(d) => digits_value(d) as u16,
                    None => DEFAULT_PORT,
                },
                method: version,
            },
        ),
        decode_utf8(encode_utf8(host)) == host,
{
    broadcast use encode_utf8_valid_utf8, encode_utf8_decode_utf8;

    let h = encode_utf8(host);
    let auth = authority(h, port);
    let line = connect_line(auth, version);
    let input = line + after;
    let n = line.len() - 1;
    lemma_field_end_at(input, 0, n, CR);
    assert(input.subrange(0, n) =~= line.subrange(0, n));
    let l = line.subrange(0, n);
    assert(l =~= connect_word() + seq![SPACE] + auth + seq![SPACE] + version);
    let e1 = 7int;
    lemma_field_end_at(l, 0, e1, SPACE);
    assert(l.subrange(0, e1) =~= connect_word());
    let e2 = e1 + 1 + auth.len();
    lemma_field_end_at(l, e1 + 1, e2, SPACE);
    assert(l.subrange(e1 + 1, e2) =~= auth);
    lemma_field_end_at(l, e2 + 1, l.len() as int, SPACE);
    assert(l.subrange(e2 + 1, l.len() as int) =~= version);
    match port {
        Some(d) => {
            lemma_field_end_at(auth, 0, h.len() as int, COLON);
            assert(auth.subrange(0, h.len() as int) =~= h);
            assert(auth.subrange(h.len() as int + 1, auth.len() as int) =~= d);
            assert(port_digits(d) =~= d);
            let tail = seq![COLON] + d;
            assert forall|i: int| 0 <= i < tail.len() implies #[trigger] tail[i] < 0x80 by {
                if i > 0 {
                    assert(tail[i] == d[i - 1]);
                    assert(is_digit(d[i - 1]));
                }
            }
            lemma_ascii_valid_utf8(tail);
            lemma_valid_utf8_concat(h, tail);
            assert(auth =~= h + tail);
        },
        None => {
            lemma_field_end_at(auth, 0, h.len() as int, COLON);
            assert(auth.subrange(0, h.len() as int) =~= h);
        },
    }
}

} // verus!
