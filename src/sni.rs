//! Locating the plaintext host name of a TLS ClientHello, and the optional
//! case edit of a few of its letters.

use vstd::prelude::*;

verus! {

/// Byte offsets `[start, end)` of the host name inside a hello buffer.
#[derive(Clone, Copy, Debug, PartialEq, Eq, Structural)]
pub struct SniLocation {
    pub start: usize,
    pub end: usize,
}

/// What `take_sni_point` reports for a buffer: the offsets of the first
/// host name of the server-name extension, if the buffer parses as a ClientHello.
pub uninterp spec fn sni_point_of(hello: Seq<u8>) -> Option<(usize, usize)>;

/// A one-byte-length record at `at` whose length byte equals the number of
/// bytes left from `at`: the record claims one byte more than the buffer holds.
pub open spec fn u8_record_overruns(b: Seq<u8>, at: int) -> bool {
    b.len() - at >= 2 && b[at] as int == b.len() - at
}

/// The inputs on which `take_sni_point` panics: it checks a one-byte-length
/// record (the session id, then the compression methods) against the bytes
/// from the length byte on, then slices it from the byte after.
pub open spec fn sni_scan_panics(b: Seq<u8>) -> bool {
    let n = b.len() as int;
    n >= 45 && b[5] == 1 && (u8_record_overruns(b, 43) || (b[43] as int) < n - 43 && {
        let p = 44 + b[43] as int;
        n - p >= 2 && {
            let q = p + 2 + (b[p] as int) * 256 + b[p + 1] as int;
            q <= n && u8_record_overruns(b, q)
        }
    })
}

/// Relies on take_sni's `take_sni_point`: the offsets of the host name, taken
/// from the input alone, with `start <= end <= len`. It panics on the inputs
/// of `sni_scan_panics`.
#[verifier::external_body]
fn take_sni_point(hello: &[u8]) -> (r: Option<(usize, usize)>)
    requires
        !sni_scan_panics(hello@),
    ensures
        r == sni_point_of(hello@),
        r matches Some((s, e)) ==> s <= e <= hello@.len(),
{
    take_sni::take_sni_point(hello)
}

/// Whether `sni_scan_panics` holds of the buffer.
fn scan_would_panic(b: &[u8]) -> (r: bool)
    ensures
        r == sni_scan_panics(b@),
{
    let n = b.len();
    if n < 45 || b[5] != 1 {
        return false;
    }
    let s = b[43] as usize;
    if s == n - 43 {
        return true;
    }
    if s > n - 43 {
        return false;
    }
    let p = 44 + s;
    if n - p < 2 {
        return false;
    }
    let q = p + 2 + (b[p] as usize) * 256 + b[p + 1] as usize;
    q <= n && n - q >= 2 && b[q] as usize == n - q
}

/// The location that a well-formed hello yields: the offsets reported by the
/// scanner, when the name they bound is not empty.
pub open spec fn location_of(hello: Seq<u8>) -> Option<SniLocation> {
    if sni_scan_panics(hello) {
        None
    } else {
        match sni_point_of(hello) {
            Some((s, e)) => if s < e {
                Some(SniLocation { start: s, end: e })
            } else {
                None
            },
            None => None,
        }
    }
}

/// Finds the host name of the server-name extension in a raw ClientHello.
/// A buffer that is no ClientHello, has no such name, or is cut inside a
/// length-prefixed record that the scanner cannot take, gives `None`.
pub fn locate_sni(hello: &[u8]) -> (r: Option<SniLocation>)
    ensures
        r == location_of(hello@),
        r matches Some(loc) ==> loc.start < loc.end <= hello@.len(),
{
    if scan_would_panic(hello) {
        return None;
    }
    match take_sni_point(hello) {
        Some((s, e)) => if s < e {
            Some(SniLocation { start: s, end: e })
        } else {
            None
        },
        None => None,
    }
}

/// ASCII case toggle of one byte; other bytes are left as they are.
pub open spec fn toggled(b: u8) -> u8 {
    if 97 <= b <= 122 {
        (b - 32) as u8
    } else if 65 <= b <= 90 {
        (b + 32) as u8
    } else {
        b
    }
}

/// Whether the case edit applies to a location in a buffer of `n` bytes: the
/// name spans at least five bytes and lies inside the buffer.
pub open spec fn edit_applies(loc: SniLocation, n: int) -> bool {
    loc.start + 5 <= loc.end && loc.end <= n
}

/// The offsets whose letters the case edit toggles.
pub open spec fn is_edit_target(loc: SniLocation, i: int) -> bool {
    i == loc.start || i == loc.end - 1 || i == loc.start + 4
}

/// The buffer after the case edit at `loc`.
pub open spec fn edited(hello: Seq<u8>, loc: SniLocation) -> Seq<u8> {
    if edit_applies(loc, hello.len() as int) {
        Seq::new(
            hello.len(),
            |i: int|
                if is_edit_target(loc, i) {
                    toggled(hello[i])
                } else {
                    hello[i]
                },
        )
    } else {
        hello
    }
}

fn toggle_case(b: u8) -> (r: u8)
    ensures
        r == toggled(b),
{
    if 97 <= b && b <= 122 {
        b - 32
    } else if 65 <= b && b <= 90 {
        b + 32
    } else {
        b
    }
}

/// Toggles the case of the host name's first byte, its last byte and its
/// fifth byte (once, where the last is the fifth), when the name spans at least five bytes inside the buffer;
/// otherwise leaves the buffer as it is.
pub fn esni_edit(buf: &mut Vec<u8>, loc: SniLocation)
    ensures
        final(buf)@ == edited(old(buf)@, loc),
{
    if loc.start < loc.end && loc.end - loc.start >= 5 && loc.end <= buf.len() {
        let a = toggle_case(buf[loc.start]);
        buf.set(loc.start, a);
        let b = toggle_case(buf[loc.end - 1]);
        buf.set(loc.end - 1, b);
        if loc.start + 4 != loc.end - 1 {
            let c = toggle_case(buf[loc.start + 4]);
            buf.set(loc.start + 4, c);
        }
        assert(buf@ =~= edited(old(buf)@, loc));
    }
}

/// The case edit changes the three targeted bytes, each to its toggled case,
/// and no other byte, inside the name or outside it.
pub proof fn lemma_edit_touches_three_bytes(hello: Seq<u8>, loc: SniLocation, i: int)
    requires
        edit_applies(loc, hello.len() as int),
        0 <= i < hello.len(),
    ensures
        edited(hello, loc).len() == hello.len(),
        is_edit_target(loc, i) ==> edited(hello, loc)[i] == toggled(hello[i]),
        !is_edit_target(loc, i) ==> edited(hello, loc)[i] == hello[i],
{
}

} // verus!
