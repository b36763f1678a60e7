//! Byte-level edits of the Photoshop `maniIRFR` animation resource payload.
//!
//! The payload starts with the eight bytes `maniIRFR` and a big-endian section length,
//! followed by child records `8BIM`, a four-byte key, a big-endian length and the child
//! data, padded to an even size. These edits change only the `AnDs` child and the two
//! lengths that enclose it.
use vstd::prelude::*;

use crate::roundtrip::{
    be_u32_at, lemma_be_u32_range, lemma_u32_be_round_trip, lemma_u32_bytes_of_value, u32_be_bytes,
};

verus! {

/// The eight bytes that open an animation resource payload.
pub open spec fn mani_irfr() -> Seq<u8> {
    seq![0x6du8, 0x61, 0x6e, 0x69, 0x49, 0x52, 0x46, 0x52]
}

/// The key of the animation descriptor child.
pub open spec fn ands_key() -> Seq<u8> {
    seq![0x41u8, 0x6e, 0x44, 0x73]
}

/// Where the walk over the children of an animation section ends.
pub enum ChildWalk {
    /// The `AnDs` child starts at `at` and carries `length` data bytes.
    Found { at: int, length: int },
    /// A child header or its data runs past the payload or the section.
    Malformed,
    /// The walk reached the end of the section without an `AnDs` child.
    Missing,
}

/// Walks the children from `cursor` to the section end `outer_end`.
pub open spec fn walk_children(p: Seq<u8>, outer_end: int, cursor: int) -> ChildWalk
    decreases outer_end + 1 - cursor,
{
    if cursor < 0 || cursor >= outer_end {
        ChildWalk::Missing
    } else if cursor + 12 > p.len() {
        ChildWalk::Malformed
    } else {
        let length = be_u32_at(p, cursor + 8);
        let data_end = cursor + 12 + length;
        proof {
            lemma_be_u32_range(p, cursor + 8);
        }
        if data_end > outer_end {
            ChildWalk::Malformed
        } else if p.subrange(cursor + 4, cursor + 8) == ands_key() {
            ChildWalk::Found { at: cursor, length }
        } else {
            walk_children(p, outer_end, data_end + length % 2)
        }
    }
}

/// Whether a payload opens with the `maniIRFR` header and its section fits in it.
pub open spec fn section_fits(p: Seq<u8>) -> bool {
    &&& p.len() >= 12
    &&& p.take(8) == mani_irfr()
    &&& 12 + be_u32_at(p, 8) <= p.len()
}

/// The `AnDs` child of a well-framed payload.
pub open spec fn ands_child(p: Seq<u8>) -> ChildWalk {
    walk_children(p, 12 + be_u32_at(p, 8), 12)
}

/// `count` zero bytes.
pub open spec fn zeros(count: nat) -> Seq<u8> {
    Seq::new(count, |i: int| 0u8)
}

/// The payload with `extra` zero bytes appended to the `AnDs` child found at `at`.
pub open spec fn appended_payload(p: Seq<u8>, at: int, length: int, extra: nat) -> Seq<u8> {
    p.take(8) + u32_be_bytes((be_u32_at(p, 8) + extra) as u32) + p.subrange(12, at + 8)
        + u32_be_bytes((length + extra) as u32) + p.subrange(at + 12, at + 12 + length) + zeros(
        extra,
    ) + p.skip(at + 12 + length)
}

/// The payload with the last `remove` bytes of the `AnDs` child found at `at` dropped.
pub open spec fn truncated_payload(p: Seq<u8>, at: int, length: int, remove: int) -> Seq<u8> {
    p.take(8) + u32_be_bytes((be_u32_at(p, 8) - remove) as u32) + p.subrange(12, at + 8)
        + u32_be_bytes((length - remove) as u32) + p.subrange(at + 12, at + 12 + length - remove)
        + p.skip(at + 12 + length)
}

/// Reads one bounded big-endian integer.
pub fn read_u32(bytes: &[u8], offset: usize) -> (value: Result<u32, String>)
    ensures
        match value {
            Ok(v) => offset + 4 <= bytes@.len() && v == be_u32_at(bytes@, offset as int),
            Err(message) => offset + 4 > bytes@.len() && message@ == "truncated u32"@,
        },
{
    if offset <= bytes.len() && bytes.len() - offset >= 4 {
        let v = (bytes[offset] as u32) * 16777216 + (bytes[offset + 1] as u32) * 65536
            + (bytes[offset + 2] as u32) * 256 + (bytes[offset + 3] as u32);
        Ok(v)
    } else {
        Err("truncated u32".to_owned())
    }
}

fn append_bytes(out: &mut Vec<u8>, source: &[u8])
    ensures
        final(out)@ == old(out)@ + source@,
{
    let mut i: usize = 0;
    while i < source.len()
        invariant
            i <= source@.len(),
            out@ == old(out)@ + source@.take(i as int),
        decreases source@.len() - i,
    {
        out.push(source[i]);
        assert(source@.take(i as int + 1) == source@.take(i as int).push(source@[i as int]));
        i = i + 1;
    }
    assert(source@.take(source@.len() as int) == source@);
}

fn append_u32_be(out: &mut Vec<u8>, value: u32)
    ensures
        final(out)@ == old(out)@ + u32_be_bytes(value),
{
    out.push((value / 16777216) as u8);
    out.push(((value / 65536) % 256) as u8);
    out.push(((value / 256) % 256) as u8);
    out.push((value % 256) as u8);
    assert(out@ == old(out)@ + u32_be_bytes(value));
}

fn append_zeros(out: &mut Vec<u8>, count: usize)
    ensures
        final(out)@ == old(out)@ + zeros(count as nat),
{
    let mut i: usize = 0;
    while i < count
        invariant
            i <= count,
            out@ == old(out)@ + zeros(i as nat),
        decreases count - i,
    {
        out.push(0u8);
        assert(zeros(i as nat + 1) == zeros(i as nat).push(0u8));
        i = i + 1;
    }
}

/// Why the `AnDs` child of a payload could not be located.
#[derive(Debug, Clone, Copy, PartialEq, Eq, Structural)]
pub enum ChildLocateError {
    /// The payload does not open with the `maniIRFR` header.
    NotAnimationResource,
    /// The declared section length overflows the address range.
    SectionOverflow,
    /// The declared section runs past the payload.
    SectionTruncated,
    /// A child key runs past the payload.
    ChildKeyTruncated,
    /// A child length field runs past the payload.
    ChildLengthTruncated,
    /// A child's data runs past the section.
    ChildTruncated,
    /// The section holds no `AnDs` child.
    NoAndsChild,
}

/// Locates the `AnDs` child: its offset, its data length and the section length.
pub fn locate_ands_child(payload: &[u8]) -> (found: Result<(usize, usize, usize), ChildLocateError>)
    requires
        payload@.len() <= isize::MAX,
    ensures
        match found {
            Ok((at, length, outer_length)) => {
                &&& section_fits(payload@)
                &&& outer_length == be_u32_at(payload@, 8)
                &&& ands_child(payload@) == (ChildWalk::Found { at: at as int, length: length as int })
            },
            Err(ChildLocateError::NoAndsChild) => section_fits(payload@) && ands_child(payload@) is Missing,
            Err(_) => !section_fits(payload@) || ands_child(payload@) is Malformed,
        },
{
    if payload.len() < 12 || payload[0] != 0x6d || payload[1] != 0x61 || payload[2] != 0x6e
        || payload[3] != 0x69 || payload[4] != 0x49 || payload[5] != 0x52 || payload[6] != 0x46
        || payload[7] != 0x52 {
        proof {
            if payload@.len() >= 12 {
                assert(payload@.take(8)[0] == payload@[0]);
                assert(payload@.take(8)[1] == payload@[1]);
                assert(payload@.take(8)[2] == payload@[2]);
                assert(payload@.take(8)[3] == payload@[3]);
                assert(payload@.take(8)[4] == payload@[4]);
                assert(payload@.take(8)[5] == payload@[5]);
                assert(payload@.take(8)[6] == payload@[6]);
                assert(payload@.take(8)[7] == payload@[7]);
            }
        }
        return Err(ChildLocateError::NotAnimationResource);
    }
    assert(payload@.take(8) =~= mani_irfr());
    let outer_length = match read_u32(payload, 8) {
        Ok(v) => v as usize,
        Err(_) => {
            return Err(ChildLocateError::NotAnimationResource);
        },
    };
    if outer_length > usize::MAX - 12 {
        return Err(ChildLocateError::SectionOverflow);
    }
    let outer_end = 12 + outer_length;
    if outer_end > payload.len() {
        return Err(ChildLocateError::SectionTruncated);
    }
    let mut cursor: usize = 12;
    while cursor < outer_end
        invariant
            payload@.len() <= isize::MAX,
            section_fits(payload@),
            outer_length == be_u32_at(payload@, 8),
            outer_end == 12 + outer_length,
            outer_end <= payload@.len(),
            cursor <= outer_end + 1,
            ands_child(payload@) == walk_children(payload@, outer_end as int, cursor as int),
        decreases outer_end + 1 - cursor,
    {
        if cursor > payload.len() - 8 {
            return Err(ChildLocateError::ChildKeyTruncated);
        }
        let length = match read_u32(payload, cursor + 8) {
            Ok(v) => v as usize,
            Err(_) => {
                return Err(ChildLocateError::ChildLengthTruncated);
            },
        };
        assert(cursor + 12 <= payload@.len());
        let data_start = cursor + 12;
        if data_start > outer_end || length > outer_end - data_start {
            return Err(ChildLocateError::ChildTruncated);
        }
        let data_end = data_start + length;
        if payload[cursor + 4] == 0x41 && payload[cursor + 5] == 0x6e && payload[cursor + 6] == 0x44
            && payload[cursor + 7] == 0x73 {
            assert(payload@.subrange(cursor + 4, cursor + 8) =~= ands_key());
            return Ok((cursor, length, outer_length));
        }
        proof {
            let key = payload@.subrange(cursor + 4, cursor + 8);
            if key == ands_key() {
                assert(key[0] == payload@[cursor + 4]);
                assert(key[1] == payload@[cursor + 5]);
                assert(key[2] == payload@[cursor + 6]);
                assert(key[3] == payload@[cursor + 7]);
            }
        }
        cursor = data_end + length % 2;
    }
    Err(ChildLocateError::NoAndsChild)
}

/// What a successful walk knows of the child it found.
pub proof fn lemma_found_child(p: Seq<u8>, outer_end: int, cursor: int)
    requires
        walk_children(p, outer_end, cursor) is Found,
    ensures
        ({
            let (at, length) = (walk_children(p, outer_end, cursor)->at, walk_children(p, outer_end, cursor)->length);
            &&& 0 <= cursor <= at
            &&& at + 12 <= p.len()
            &&& length == be_u32_at(p, at + 8)
            &&& 0 <= length
            &&& at + 12 + length <= outer_end
            &&& p.subrange(at + 4, at + 8) == ands_key()
        }),
    decreases outer_end + 1 - cursor,
{
    lemma_be_u32_range(p, cursor + 8);
    let length = be_u32_at(p, cursor + 8);
    if !(p.subrange(cursor + 4, cursor + 8) == ands_key()) {
        lemma_found_child(p, outer_end, cursor + 12 + length + length % 2);
    }
}

/// A walk that finds the child at `at` finds it again in any payload that agrees on the
/// bytes before its length field, when the new length still fits the (possibly longer)
/// section.
proof fn lemma_walk_agrees(p: Seq<u8>, q: Seq<u8>, p_end: int, q_end: int, cursor: int, q_length: int)
    requires
        walk_children(p, p_end, cursor) is Found,
        cursor <= walk_children(p, p_end, cursor)->at,
        q.len() >= walk_children(p, p_end, cursor)->at + 12,
        forall|i: int| cursor <= i < walk_children(p, p_end, cursor)->at + 8 ==> q[i] == p[i],
        be_u32_at(q, walk_children(p, p_end, cursor)->at + 8) == q_length,
        walk_children(p, p_end, cursor)->at + 12 + q_length <= q_end,
        p_end <= q_end,
    ensures
        walk_children(q, q_end, cursor) == (ChildWalk::Found { at: walk_children(p, p_end, cursor)->at, length: q_length }),
    decreases p_end + 1 - cursor,
{
    let at = walk_children(p, p_end, cursor)->at;
    lemma_found_child(p, p_end, cursor);
    lemma_be_u32_range(p, cursor + 8);
    let length = be_u32_at(p, cursor + 8);
    if cursor == at {
        assert(q.subrange(cursor + 4, cursor + 8) =~= p.subrange(cursor + 4, cursor + 8));
    } else {
        let next = cursor + 12 + length + length % 2;
        lemma_found_child(p, p_end, next);
        assert(q[cursor + 8] == p[cursor + 8] && q[cursor + 9] == p[cursor + 9] && q[cursor + 10] == p[cursor + 10] && q[cursor + 11] == p[cursor + 11]);
        assert(be_u32_at(q, cursor + 8) == length);
        assert(q.subrange(cursor + 4, cursor + 8) =~= p.subrange(cursor + 4, cursor + 8));
        lemma_walk_agrees(p, q, p_end, q_end, next, q_length);
    }
}

/// Where the parts of an appended payload stand.
proof fn lemma_appended_layout(p: Seq<u8>, at: int, length: int, extra: nat)
    requires
        12 <= at + 8,
        0 <= length,
        at + 12 + length <= p.len(),
    ensures
        ({
            let q = appended_payload(p, at, length, extra);
            &&& q.len() == p.len() + extra
            &&& q.take(8) == p.take(8)
            &&& q.subrange(8, 12) == u32_be_bytes((be_u32_at(p, 8) + extra) as u32)
            &&& q.subrange(12, at + 8) == p.subrange(12, at + 8)
            &&& q.subrange(at + 8, at + 12) == u32_be_bytes((length + extra) as u32)
            &&& q.subrange(at + 12, at + 12 + length) == p.subrange(at + 12, at + 12 + length)
            &&& q.skip(at + 12 + length + extra) == p.skip(at + 12 + length)
        }),
{
    let q = appended_payload(p, at, length, extra);
    let h = p.take(8) + u32_be_bytes((be_u32_at(p, 8) + extra) as u32) + p.subrange(12, at + 8);
    let h2 = h + u32_be_bytes((length + extra) as u32);
    let h3 = h2 + p.subrange(at + 12, at + 12 + length);
    let h4 = h3 + zeros(extra);
    assert(q == h4 + p.skip(at + 12 + length));
    assert(h.len() == at + 8);
    assert(q.take(8) =~= p.take(8));
    assert(q.subrange(8, 12) =~= u32_be_bytes((be_u32_at(p, 8) + extra) as u32));
    assert(q.subrange(12, at + 8) =~= p.subrange(12, at + 8));
    assert(q.subrange(at + 8, at + 12) =~= u32_be_bytes((length + extra) as u32));
    assert(q.subrange(at + 12, at + 12 + length) =~= p.subrange(at + 12, at + 12 + length));
    assert(q.skip(at + 12 + length + extra) =~= p.skip(at + 12 + length));
}

/// A payload is the concatenation of its header, section length, the bytes before the
/// child length, the child length, the child data and the rest.
proof fn lemma_payload_parts(p: Seq<u8>, at: int, length: int)
    requires
        12 <= at + 8,
        0 <= length,
        at + 12 + length <= p.len(),
    ensures
        p == p.take(8) + p.subrange(8, 12) + p.subrange(12, at + 8) + p.subrange(at + 8, at + 12)
            + p.subrange(at + 12, at + 12 + length) + p.skip(at + 12 + length),
{
    assert(p =~= p.take(8) + p.subrange(8, 12) + p.subrange(12, at + 8) + p.subrange(at + 8, at + 12)
        + p.subrange(at + 12, at + 12 + length) + p.skip(at + 12 + length));
}

/// Round trip of the two `AnDs` edits: whenever `append_ands_bytes(p, extra)` succeeds (a
/// well-framed section whose `AnDs` child is found, with room for `extra` more bytes), the
/// payload it returns is well framed again, its `AnDs` child is found at the same offset and
/// is `extra` bytes longer, so `truncate_ands_payload` with the same count succeeds on it,
/// and what that returns is `p`, byte for byte.
pub proof fn lemma_truncate_undoes_append(p: Seq<u8>, extra: nat)
    requires
        section_fits(p),
        ands_child(p) is Found,
        be_u32_at(p, 8) + extra <= u32::MAX,
    ensures
        ({
            let (at, length) = (ands_child(p)->at, ands_child(p)->length);
            let q = appended_payload(p, at, length, extra);
            &&& section_fits(q)
            &&& be_u32_at(q, 8) == be_u32_at(p, 8) + extra
            &&& ands_child(q) == (ChildWalk::Found { at, length: length + extra })
            &&& extra <= length + extra
            &&& truncated_payload(q, at, length + extra, extra as int) == p
        }),
{
    let (at, length) = (ands_child(p)->at, ands_child(p)->length);
    let outer = be_u32_at(p, 8);
    lemma_be_u32_range(p, 8);
    lemma_found_child(p, 12 + outer, 12);
    let q = appended_payload(p, at, length, extra);
    let new_outer = (outer + extra) as u32;
    let new_length = (length + extra) as u32;
    lemma_u32_be_round_trip(new_outer);
    lemma_u32_be_round_trip(new_length);
    lemma_appended_layout(p, at, length, extra);
    assert(be_u32_at(q, 8) == be_u32_at(q.subrange(8, 12), 0));
    assert(be_u32_at(q, at + 8) == be_u32_at(q.subrange(at + 8, at + 12), 0));
    assert(section_fits(q));
    assert forall|i: int| 12 <= i < at + 8 implies q[i] == p[i] by {
        assert(q.subrange(12, at + 8)[i - 12] == p.subrange(12, at + 8)[i - 12]);
    }
    lemma_walk_agrees(p, q, 12 + outer, 12 + outer + extra, 12, length + extra);
    lemma_u32_bytes_of_value(p, 8);
    lemma_u32_bytes_of_value(p, at + 8);
    lemma_payload_parts(p, at, length);
    assert(q.subrange(at + 12, at + 12 + length + extra - extra as int) == p.subrange(at + 12, at + 12 + length));
}

/// The text of a failure to locate the animation child.
pub open spec fn locate_text(kind: ChildLocateError) -> Seq<char> {
    match kind {
        ChildLocateError::NotAnimationResource => "animation resource is not maniIRFR"@,
        ChildLocateError::SectionOverflow => "maniIRFR length overflow"@,
        ChildLocateError::SectionTruncated => "truncated maniIRFR section"@,
        ChildLocateError::ChildKeyTruncated => "truncated animation child key"@,
        ChildLocateError::ChildLengthTruncated => "truncated u32"@,
        ChildLocateError::ChildTruncated => "truncated animation child"@,
        ChildLocateError::NoAndsChild => "maniIRFR has no AnDs child"@,
    }
}

fn locate_message(kind: ChildLocateError) -> (message: String)
    ensures
        message@ == locate_text(kind),
{
    match kind {
        ChildLocateError::NotAnimationResource => "animation resource is not maniIRFR".to_owned(),
        ChildLocateError::SectionOverflow => "maniIRFR length overflow".to_owned(),
        ChildLocateError::SectionTruncated => "truncated maniIRFR section".to_owned(),
        ChildLocateError::ChildKeyTruncated => "truncated animation child key".to_owned(),
        ChildLocateError::ChildLengthTruncated => "truncated u32".to_owned(),
        ChildLocateError::ChildTruncated => "truncated animation child".to_owned(),
        ChildLocateError::NoAndsChild => "maniIRFR has no AnDs child".to_owned(),
    }
}

/// Rebuilds the payload with `extra` zero bytes after the data of the child at `at`.
fn build_appended(payload: &[u8], at: usize, length: usize, outer_length: usize, extra: usize) -> (bytes: Vec<u8>)
    requires
        12 <= at + 8,
        at + 12 + length <= payload@.len(),
        outer_length == be_u32_at(payload@, 8),
        outer_length + extra <= u32::MAX,
        length <= outer_length,
    ensures
        bytes@ == appended_payload(payload@, at as int, length as int, extra as nat),
{
    let total = payload.len();
    assert(at + 12 + length <= total);
    let mut out: Vec<u8> = Vec::new();
    append_bytes(&mut out, &payload[0..8]);
    append_u32_be(&mut out, (outer_length + extra) as u32);
    append_bytes(&mut out, &payload[12..at + 8]);
    append_u32_be(&mut out, (length + extra) as u32);
    append_bytes(&mut out, &payload[at + 12..at + 12 + length]);
    append_zeros(&mut out, extra);
    append_bytes(&mut out, &payload[at + 12 + length..payload.len()]);
    assert(payload@.subrange(0, 8) == payload@.take(8));
    assert(payload@.subrange(at + 12 + length, payload@.len() as int) == payload@.skip(at + 12 + length));
    out
}

/// Appends `extra` zero bytes inside the declared `AnDs` child payload, growing the child
/// and section lengths by the same amount.
pub fn append_ands_bytes(payload: &[u8], extra: usize) -> (edited: Result<Vec<u8>, String>)
    requires
        payload@.len() <= isize::MAX,
    ensures
        match edited {
            Ok(bytes) => section_fits(payload@) && be_u32_at(payload@, 8) + extra <= u32::MAX
                && (ands_child(payload@) matches ChildWalk::Found { at, length }
                && bytes@ == appended_payload(payload@, at, length, extra as nat)),
            Err(_) => !(section_fits(payload@) && ands_child(payload@) is Found && be_u32_at(payload@, 8)
                + extra <= u32::MAX),
        },
{
    let (at, length, outer_length) = match locate_ands_child(payload) {
        Ok(found) => found,
        Err(kind) => {
            return Err(locate_message(kind));
        },
    };
    proof {
        lemma_found_child(payload@, 12 + outer_length, 12);
    }
    if extra > usize::MAX - length {
        return Err("AnDs length overflow".to_owned());
    }
    if extra > usize::MAX - outer_length {
        return Err("maniIRFR length overflow".to_owned());
    }
    if outer_length + extra > 0xffff_ffff {
        return Err("maniIRFR exceeds u32".to_owned());
    }
    Ok(build_appended(payload, at, length, outer_length, extra))
}

/// Appends two zero bytes inside the declared `AnDs` child payload.
pub fn add_ands_trailer(payload: &[u8]) -> (edited: Result<Vec<u8>, String>)
    requires
        payload@.len() <= isize::MAX,
    ensures
        match edited {
            Ok(bytes) => section_fits(payload@) && be_u32_at(payload@, 8) + 2 <= u32::MAX
                && (ands_child(payload@) matches ChildWalk::Found { at, length }
                && bytes@ == appended_payload(payload@, at, length, 2)),
            Err(_) => !(section_fits(payload@) && ands_child(payload@) is Found && be_u32_at(payload@, 8)
                + 2 <= u32::MAX),
        },
{
    let (at, length, outer_length) = match locate_ands_child(payload) {
        Ok(found) => found,
        Err(ChildLocateError::SectionOverflow) => {
            return Err("maniIRFR section length overflow".to_owned());
        },
        Err(ChildLocateError::ChildKeyTruncated) => {
            return Err("truncated child key".to_owned());
        },
        Err(ChildLocateError::ChildTruncated) => {
            return Err("truncated child payload".to_owned());
        },
        Err(kind) => {
            return Err(locate_message(kind));
        },
    };
    proof {
        lemma_found_child(payload@, 12 + outer_length, 12);
    }
    if outer_length + 2 > 0xffff_ffff {
        return Err("maniIRFR exceeds 4 GiB".to_owned());
    }
    Ok(build_appended(payload, at, length, outer_length, 2))
}

/// Removes the last `remove` bytes of the declared `AnDs` child payload, shrinking the
/// child and section lengths by the same amount.
pub fn truncate_ands_payload(payload: &[u8], remove: usize) -> (edited: Result<Vec<u8>, String>)
    requires
        payload@.len() <= isize::MAX,
    ensures
        match edited {
            Ok(bytes) => section_fits(payload@) && (ands_child(payload@) matches ChildWalk::Found {
                at,
                length,
            } && remove <= length && bytes@ == truncated_payload(payload@, at, length, remove as int)),
            Err(_) => !(section_fits(payload@) && (ands_child(payload@) matches ChildWalk::Found {
                length,
                ..
            } && remove <= length)),
        },
{
    let (at, length, outer_length) = match locate_ands_child(payload) {
        Ok(found) => found,
        Err(kind) => {
            return Err(locate_message(kind));
        },
    };
    proof {
        lemma_found_child(payload@, 12 + outer_length, 12);
    }
    if remove > length {
        return Err("cannot remove more bytes than AnDs payload".to_owned());
    }
    let mut out: Vec<u8> = Vec::new();
    append_bytes(&mut out, &payload[0..8]);
    append_u32_be(&mut out, (outer_length - remove) as u32);
    append_bytes(&mut out, &payload[12..at + 8]);
    append_u32_be(&mut out, (length - remove) as u32);
    append_bytes(&mut out, &payload[at + 12..at + 12 + length - remove]);
    append_bytes(&mut out, &payload[at + 12 + length..payload.len()]);
    assert(payload@.subrange(0, 8) == payload@.take(8));
    assert(payload@.subrange(at + 12 + length, payload@.len() as int) == payload@.skip(at + 12 + length));
    Ok(out)
}

/// The bytes `LaIDlong` followed by a big-endian layer ID, as an `mlst` descriptor stores
/// the `LaID` field.
pub open spec fn layer_id_field(id: u32) -> Seq<u8> {
    seq![0x4cu8, 0x61, 0x49, 0x44, 0x6c, 0x6f, 0x6e, 0x67] + u32_be_bytes(id)
}

/// Whether the `LaID` field of layer `id` starts at `at`.
pub open spec fn layer_id_field_at(p: Seq<u8>, at: int, id: u32) -> bool {
    0 <= at && at + 12 <= p.len() && p.subrange(at, at + 12) == layer_id_field(id)
}

/// Whether `needle` occurs in `haystack` at `at`.
fn window_matches(haystack: &[u8], at: usize, needle: &Vec<u8>) -> (result: bool)
    ensures
        result == (at + needle@.len() <= haystack@.len() && haystack@.subrange(
            at as int,
            at + needle@.len(),
        ) == needle@),
{
    if at > haystack.len() || needle.len() > haystack.len() - at {
        return false;
    }
    let mut k: usize = 0;
    while k < needle.len()
        invariant
            at + needle@.len() <= haystack@.len(),
            haystack@.len() == haystack.len(),
            k <= needle@.len(),
            forall|q: int| 0 <= q < k ==> haystack@[at + q] == needle@[q],
        decreases needle@.len() - k,
    {
        if haystack[at + k] != needle[k] {
            proof {
                let window = haystack@.subrange(at as int, at + needle@.len());
                assert(window[k as int] != needle@[k as int]);
            }
            return false;
        }
        k = k + 1;
    }
    assert(haystack@.subrange(at as int, at + needle@.len()) =~= needle@);
    true
}

#[verifier::external_body]
fn mlst_match_message(old_id: u32, found: usize) -> (message: String)
    ensures
        message@ == "expected one mlst LaID for layer "@ + crate::text::decimal(old_id as int) + ", found "@
            + crate::text::decimal(found as int),
{
    format!("expected one mlst LaID for layer {old_id}, found {found}")
}

/// How many positions below `n` hold the `LaID` field of layer `id`.
pub open spec fn layer_id_field_count(payload: Seq<u8>, id: u32, n: int) -> nat
    decreases n,
{
    if n <= 0 {
        0
    } else {
        layer_id_field_count(payload, id, n - 1) + if layer_id_field_at(payload, n - 1, id) { 1nat } else { 0nat }
    }
}

/// Rewrites the single `LaID` field of layer `old_id` in an `mlst` payload to `new_id`,
/// rejecting payloads where that field is absent or occurs more than once.
pub fn replace_mlst_layer_id(payload: &[u8], old_id: u32, new_id: u32) -> (edited: Result<Vec<u8>, String>)
    ensures
        match edited {
            Ok(bytes) => exists|at: int| {
                &&& #[trigger] layer_id_field_at(payload@, at, old_id)
                &&& forall|other: int| #[trigger] layer_id_field_at(payload@, other, old_id) ==> other == at
                &&& bytes@ == payload@.take(at + 8) + u32_be_bytes(new_id) + payload@.skip(at + 12)
            },
            Err(message) => !(exists|at: int| {
                &&& #[trigger] layer_id_field_at(payload@, at, old_id)
                &&& forall|other: int| #[trigger] layer_id_field_at(payload@, other, old_id) ==> other == at
            }) && message@ == "expected one mlst LaID for layer "@ + crate::text::decimal(old_id as int) + ", found "@
                + crate::text::decimal(layer_id_field_count(payload@, old_id, payload@.len() as int) as int),
        },
{
    let mut needle: Vec<u8> = Vec::new();
    needle.push(0x4c);
    needle.push(0x61);
    needle.push(0x49);
    needle.push(0x44);
    needle.push(0x6c);
    needle.push(0x6f);
    needle.push(0x6e);
    needle.push(0x67);
    append_u32_be(&mut needle, old_id);
    assert(needle@ == layer_id_field(old_id));
    let mut count: usize = 0;
    let mut first: usize = 0;
    let mut i: usize = 0;
    while i < payload.len()
        invariant
            needle@ == layer_id_field(old_id),
            i <= payload@.len(),
            count <= i,
            count == layer_id_field_count(payload@, old_id, i as int),
            count == 0 ==> forall|j: int| 0 <= j < i ==> !layer_id_field_at(payload@, j, old_id),
            count >= 1 ==> first < i && layer_id_field_at(payload@, first as int, old_id),
            count == 1 ==> forall|j: int|
                0 <= j < i && layer_id_field_at(payload@, j, old_id) ==> j == first,
            count >= 2 ==> exists|a: int, b: int|
                #![trigger layer_id_field_at(payload@, a, old_id), layer_id_field_at(payload@, b, old_id)]
                a != b && layer_id_field_at(payload@, a, old_id) && layer_id_field_at(payload@, b, old_id),
        decreases payload@.len() - i,
    {
        if window_matches(payload, i, &needle) {
            if count == 0 {
                first = i;
            } else {
                assert(layer_id_field_at(payload@, first as int, old_id));
                assert(layer_id_field_at(payload@, i as int, old_id));
            }
            count = count + 1;
        }
        i = i + 1;
    }
    proof {
        assert forall|j: int| #[trigger] layer_id_field_at(payload@, j, old_id) implies 0 <= j < payload@.len() by {}
    }
    if count != 1 {
        return Err(mlst_match_message(old_id, count));
    }
    let mut out: Vec<u8> = Vec::new();
    append_bytes(&mut out, &payload[0..first + 8]);
    append_u32_be(&mut out, new_id);
    append_bytes(&mut out, &payload[first + 12..payload.len()]);
    assert(payload@.subrange(0, first + 8) == payload@.take(first + 8));
    assert(payload@.subrange(first + 12, payload@.len() as int) == payload@.skip(first + 12));
    Ok(out)
}

} // verus!
