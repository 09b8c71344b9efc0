//! Addresses as text. A datagram's source reads `host:port`; its host part is
//! a dotted-quad IPv4 address, which the engine keeps as one `u32`, first
//! field highest.

use vstd::prelude::*;
use vstd::slice::slice_subrange;

verus! {

/// The byte `.`, which parts the four fields of an address.
pub const DOT: u8 = 46;

/// The byte `:`, which parts host and port.
pub const COLON: u8 = 58;

/// The key under which every client is filed whose host part is no IPv4
/// address. It lies above every address.
pub const UNKNOWN_CLIENT: u64 = 0x1_0000_0000;

/// How many bytes of `text` stand before the first `stop`: all of them where
/// there is none.
pub open spec fn first_stop(text: Seq<u8>, stop: u8) -> int
    decreases text.len(),
{
    if text.len() == 0 || text[0] == stop {
        0
    } else {
        1 + first_stop(text.drop_first(), stop)
    }
}

/// The offset before which no `stop` stands, and at which one stands unless
/// the text has ended, is `first_stop`.
pub proof fn lemma_first_stop_is(text: Seq<u8>, stop: u8, at: int)
    requires
        0 <= at <= text.len(),
        forall|j: int| 0 <= j < at ==> text[j] != stop,
        at < text.len() ==> text[at] == stop,
    ensures
        first_stop(text, stop) == at,
    decreases at,
{
    if at > 0 {
        let rest = text.drop_first();
        assert(text[0] != stop);
        assert forall|j: int| 0 <= j < at - 1 implies rest[j] != stop by {
            assert(rest[j] == text[j + 1]);
        }
        if at - 1 < rest.len() {
            assert(rest[at - 1] == text[at]);
        }
        lemma_first_stop_is(rest, stop, at - 1);
    }
}

/// A decimal digit in ASCII.
pub open spec fn is_digit(byte: u8) -> bool {
    48 <= byte <= 57
}

/// The number that a run of digits writes, the last digit counting least.
pub open spec fn decimal(digits: Seq<u8>) -> int
    decreases digits.len(),
{
    if digits.len() == 0 {
        0
    } else {
        10 * decimal(digits.drop_last()) + (digits.last() - 48)
    }
}

/// One field of an address: one to three digits that write at most 255.
pub open spec fn octet_of(field: Seq<u8>) -> Option<u8> {
    if 1 <= field.len() <= 3 && (forall|i: int| 0 <= i < field.len() ==> is_digit(#[trigger] field[i]))
        && decimal(field) <= 255 {
        Some(decimal(field) as u8)
    } else {
        None
    }
}

/// Four fields as one number, the first field highest.
pub open spec fn quad(a: u8, b: u8, c: u8, d: u8) -> u32 {
    (((a as int * 256 + b as int) * 256 + c as int) * 256 + d as int) as u32
}

/// The address that `text` writes: exactly four fields with a `.` between
/// each two. `None` for any other text.
pub open spec fn ipv4_of(text: Seq<u8>) -> Option<u32> {
    let a_end = first_stop(text, DOT);
    let b_text = text.skip(a_end + 1);
    let b_end = first_stop(b_text, DOT);
    let c_text = b_text.skip(b_end + 1);
    let c_end = first_stop(c_text, DOT);
    let d_text = c_text.skip(c_end + 1);
    if a_end < text.len() && b_end < b_text.len() && c_end < c_text.len() {
        match (
            octet_of(text.take(a_end)),
            octet_of(b_text.take(b_end)),
            octet_of(c_text.take(c_end)),
            octet_of(d_text),
        ) {
            (Some(a), Some(b), Some(c), Some(d)) => Some(quad(a, b, c, d)),
            _ => None,
        }
    } else {
        None
    }
}

/// The host part of a source address: what stands before the first `:`.
pub open spec fn host_part(source: Seq<u8>) -> Seq<u8> {
    source.take(first_stop(source, COLON))
}

/// The key of the client behind a source address: its IPv4 address, or
/// `UNKNOWN_CLIENT`.
pub open spec fn client_key_of(source: Seq<u8>) -> u64 {
    match ipv4_of(host_part(source)) {
        Some(address) => address as u64,
        None => UNKNOWN_CLIENT,
    }
}

/// Four fields as one address.
pub fn ipv4(a: u8, b: u8, c: u8, d: u8) -> (address: u32)
    ensures
        address == quad(a, b, c, d),
{
    let high: u32 = (a as u32) * 256 + b as u32;
    let mid: u32 = high * 256 + c as u32;
    mid * 256 + d as u32
}

/// Offset of the first `stop` at or after `from`, or the length of the text.
pub(crate) fn find_stop(text: &[u8], from: usize, stop: u8) -> (at: usize)
    requires
        from <= text.len(),
    ensures
        from <= at <= text.len(),
        at == from + first_stop(text@.skip(from as int), stop),
{
    let mut at: usize = from;
    while at < text.len() && text[at] != stop
        invariant
            from <= at <= text.len(),
            forall|j: int| from <= j < at ==> text@[j] != stop,
        decreases text.len() - at,
    {
        at += 1;
    }
    proof {
        let tail = text@.skip(from as int);
        assert forall|j: int| 0 <= j < at - from implies tail[j] != stop by {
            assert(tail[j] == text@[from + j]);
        }
        lemma_first_stop_is(tail, stop, at - from);
    }
    at
}

/// Reads the field that lies in `text` from `from` up to `to`.
fn parse_octet(text: &[u8], from: usize, to: usize) -> (r: Option<u8>)
    requires
        from <= to <= text.len(),
    ensures
        r == octet_of(text@.subrange(from as int, to as int)),
{
    let ghost field = text@.subrange(from as int, to as int);
    if to - from < 1 || to - from > 3 {
        return None;
    }
    let mut value: u32 = 0;
    let mut at: usize = from;
    while at < to
        invariant
            from <= at <= to <= text.len(),
            to - from <= 3,
            field == text@.subrange(from as int, to as int),
            forall|i: int| 0 <= i < at - from ==> is_digit(#[trigger] field[i]),
            value == decimal(field.take(at - from)),
            value <= 999,
            at - from <= 2 ==> value <= 99,
            at - from <= 1 ==> value <= 9,
            at == from ==> value == 0,
        decreases to - at,
    {
        let byte = text[at];
        if byte < 48 || byte > 57 {
            proof {
                assert(field[at - from] == byte);
                assert(!is_digit(field[at - from]));
            }
            return None;
        }
        proof {
            let upto = field.take(at - from + 1);
            assert(upto.drop_last() =~= field.take(at - from));
            assert(upto.last() == byte);
        }
        value = value * 10 + (byte - 48) as u32;
        at += 1;
    }
    proof {
        assert(field.take(to - from) =~= field);
    }
    if value > 255 {
        None
    } else {
        Some(value as u8)
    }
}

/// Reads a dotted-quad IPv4 address.
pub fn parse_ipv4(text: &[u8]) -> (r: Option<u32>)
    ensures
        r == ipv4_of(text@),
{
    let n = text.len();
    let a_end = find_stop(text, 0, DOT);
    proof {
        assert(text@.skip(0) =~= text@);
    }
    if a_end >= n {
        return None;
    }
    let b_end = find_stop(text, a_end + 1, DOT);
    if b_end >= n {
        return None;
    }
    let c_end = find_stop(text, b_end + 1, DOT);
    proof {
        let b_text = text@.skip(a_end + 1);
        assert(b_text.skip(b_end - a_end) =~= text@.skip(b_end + 1));
    }
    if c_end >= n {
        return None;
    }
    let a = parse_octet(text, 0, a_end);
    let b = parse_octet(text, a_end + 1, b_end);
    let c = parse_octet(text, b_end + 1, c_end);
    let d = parse_octet(text, c_end + 1, n);
    proof {
        let b_text = text@.skip(a_end + 1);
        let c_text = text@.skip(b_end + 1);
        assert(b_text.take(b_end - a_end - 1) =~= text@.subrange(a_end + 1, b_end as int));
        assert(c_text.take(c_end - b_end - 1) =~= text@.subrange(b_end + 1, c_end as int));
        assert(c_text.skip(c_end - b_end) =~= text@.subrange(c_end + 1, n as int));
    }
    match (a, b, c, d) {
        (Some(a), Some(b), Some(c), Some(d)) => Some(ipv4(a, b, c, d)),
        _ => None,
    }
}

/// The host part of a source address, the port and its `:` cut off.
pub fn client_ip(source: &[u8]) -> (host: &[u8])
    ensures
        host@ == host_part(source@),
{
    let end = find_stop(source, 0, COLON);
    proof {
        assert(source@.skip(0) =~= source@);
    }
    slice_subrange(source, 0, end)
}

/// The key under which a client's distances are filed.
pub fn client_key(source: &[u8]) -> (key: u64)
    ensures
        key == client_key_of(source@),
{
    match parse_ipv4(client_ip(source)) {
        Some(address) => address as u64,
        None => UNKNOWN_CLIENT,
    }
}

} // verus!
