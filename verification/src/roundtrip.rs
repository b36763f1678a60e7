//! Private PSD metadata used to recognize converter-owned cel materialization.
use vstd::prelude::*;

use crate::error::InspectionError;

verus! {

/// The additional-info key that carries one marker.
pub const MARKER_KEY: [u8; 4] = [0x70, 0x32, 0x72, 0x74];

/// The magic prefix of a marker payload.
pub const MARKER_MAGIC: [u8; 4] = [0x50, 0x32, 0x52, 0x54];

/// The wrapper/variant marker protocol version.
pub const LEGACY_MARKER_VERSION: u16 = 1;

/// The frame-group/layer-copy marker protocol version.
pub const FRAME_GROUP_MARKER_VERSION: u16 = 2;

/// The exact size of an encoded marker payload.
pub const MARKER_SIZE: usize = 20;

/// The role of one layer in a converter-owned cel materialization.
#[derive(Debug, Clone, Copy, PartialEq, Eq, Structural)]
pub enum MarkerRole {
    Wrapper,
    Variant,
    FrameGroup,
    LayerCopy,
}

/// Identifies one converter-owned materialized cel layer.
#[derive(Debug, Clone, Copy, PartialEq, Eq, Structural)]
pub struct LayerMarker {
    pub version: u16,
    pub role: MarkerRole,
    pub logical_layer_id: u32,
    pub variant_index: u32,
    pub variant_count: u32,
}

/// Result of validating all round-trip markers found in one PSD/PSB.
#[derive(Debug, Clone, Copy, PartialEq, Eq, Structural)]
pub struct RoundTripStatus {
    /// Whether at least one marker block was present.
    pub marked: bool,
    /// Whether all marker blocks formed complete wrapper/variant sets.
    pub valid: bool,
}

/// Detailed converter-owned marker classification used by round-trip conversion.
#[derive(Debug, Clone, Copy, PartialEq, Eq, Structural)]
pub struct RoundTripLayout {
    /// Aggregate marker status retained for public inspection.
    pub status: RoundTripStatus,
    /// Marker protocol version when all markers use one known version.
    pub version: Option<u16>,
    /// Declared frame count for frame-group markers.
    pub frame_count: Option<u32>,
}

/// The big-endian unsigned value of two bytes at `at`.
pub open spec fn be_u16_at(s: Seq<u8>, at: int) -> int {
    s[at] * 256 + s[at + 1]
}

/// The big-endian unsigned value of four bytes at `at`.
pub open spec fn be_u32_at(s: Seq<u8>, at: int) -> int {
    s[at] * 16777216 + s[at + 1] * 65536 + s[at + 2] * 256 + s[at + 3]
}

/// The big-endian unsigned value of eight bytes at `at`.
pub open spec fn be_u64_at(s: Seq<u8>, at: int) -> int {
    be_u32_at(s, at) * 4294967296 + be_u32_at(s, at + 4)
}

/// The two big-endian bytes of a 16-bit value.
pub open spec fn u16_be_bytes(v: u16) -> Seq<u8> {
    seq![(v / 256) as u8, (v % 256) as u8]
}

/// The four big-endian bytes of a 32-bit value.
pub open spec fn u32_be_bytes(v: u32) -> Seq<u8> {
    seq![
        (v / 16777216) as u8,
        ((v / 65536) % 256) as u8,
        ((v / 256) % 256) as u8,
        (v % 256) as u8,
    ]
}

/// The wire code of a marker role.
pub open spec fn role_code(role: MarkerRole) -> u8 {
    match role {
        MarkerRole::Wrapper => 1,
        MarkerRole::Variant => 2,
        MarkerRole::FrameGroup => 3,
        MarkerRole::LayerCopy => 4,
    }
}

/// The marker payload: magic, version, role, a zero byte, then the three identifiers.
pub open spec fn marker_bytes(marker: LayerMarker) -> Seq<u8> {
    MARKER_MAGIC@ + u16_be_bytes(marker.version) + seq![role_code(marker.role), 0u8] + u32_be_bytes(
        marker.logical_layer_id,
    ) + u32_be_bytes(marker.variant_index) + u32_be_bytes(marker.variant_count)
}

/// Roles 1 and 2 belong to the legacy protocol, roles 3 and 4 to the frame-group protocol.
pub open spec fn role_for(version: int, code: u8) -> Option<MarkerRole> {
    if code == 1 && version == LEGACY_MARKER_VERSION {
        Some(MarkerRole::Wrapper)
    } else if code == 2 && version == LEGACY_MARKER_VERSION {
        Some(MarkerRole::Variant)
    } else if code == 3 && version == FRAME_GROUP_MARKER_VERSION {
        Some(MarkerRole::FrameGroup)
    } else if code == 4 && version == FRAME_GROUP_MARKER_VERSION {
        Some(MarkerRole::LayerCopy)
    } else {
        None
    }
}

/// Whether a marker's role belongs to its declared protocol version.
pub open spec fn marker_role_consistent(marker: LayerMarker) -> bool {
    role_for(marker.version as int, role_code(marker.role)) == Some(marker.role)
}

/// The marker a payload decodes to: twenty bytes, the magic, a zero byte after a role
/// that belongs to the declared version.
pub open spec fn decoded_marker(data: Seq<u8>) -> Option<LayerMarker> {
    if data.len() != MARKER_SIZE || data.take(4) != MARKER_MAGIC@ || data[7] != 0 {
        None
    } else {
        match role_for(be_u16_at(data, 4), data[6]) {
            Some(role) => Some(
                LayerMarker {
                    version: be_u16_at(data, 4) as u16,
                    role,
                    logical_layer_id: be_u32_at(data, 8) as u32,
                    variant_index: be_u32_at(data, 12) as u32,
                    variant_count: be_u32_at(data, 16) as u32,
                },
            ),
            None => None,
        }
    }
}

/// Reads two big-endian bytes.
fn be_u16(bytes: &[u8], at: usize) -> (value: u16)
    requires
        at + 2 <= bytes@.len(),
    ensures
        value == be_u16_at(bytes@, at as int),
{
    (bytes[at] as u16) * 256 + (bytes[at + 1] as u16)
}

/// Reads four big-endian bytes.
fn be_u32(bytes: &[u8], at: usize) -> (value: u32)
    requires
        at + 4 <= bytes@.len(),
    ensures
        value == be_u32_at(bytes@, at as int),
{
    (bytes[at] as u32) * 16777216 + (bytes[at + 1] as u32) * 65536 + (bytes[at + 2] as u32) * 256
        + (bytes[at + 3] as u32)
}

/// Reads eight big-endian bytes.
fn be_u64(bytes: &[u8], at: usize) -> (value: u64)
    requires
        at + 8 <= bytes@.len(),
    ensures
        value == be_u64_at(bytes@, at as int),
{
    let length = bytes.len();
    let high = be_u32(bytes, at) as u64;
    let low = be_u32(bytes, at + 4) as u64;
    high * 4294967296 + low
}

/// Appends the two big-endian bytes of a 16-bit value.
fn push_u16_be(out: &mut Vec<u8>, value: u16)
    ensures
        final(out)@ == old(out)@ + u16_be_bytes(value),
{
    out.push((value / 256) as u8);
    out.push((value % 256) as u8);
}

/// Appends the four big-endian bytes of a 32-bit value.
fn push_u32_be(out: &mut Vec<u8>, value: u32)
    ensures
        final(out)@ == old(out)@ + u32_be_bytes(value),
{
    out.push((value / 16777216) as u8);
    out.push(((value / 65536) % 256) as u8);
    out.push(((value / 256) % 256) as u8);
    out.push((value % 256) as u8);
}

/// Encodes one marker payload for a PSD additional-info block.
pub fn encode_marker(marker: LayerMarker) -> (payload: Vec<u8>)
    ensures
        payload@ == marker_bytes(marker),
        payload@.len() == MARKER_SIZE,
{
    let role: u8 = match marker.role {
        MarkerRole::Wrapper => 1,
        MarkerRole::Variant => 2,
        MarkerRole::FrameGroup => 3,
        MarkerRole::LayerCopy => 4,
    };
    let mut payload = Vec::with_capacity(MARKER_SIZE);
    payload.push(MARKER_MAGIC[0]);
    payload.push(MARKER_MAGIC[1]);
    payload.push(MARKER_MAGIC[2]);
    payload.push(MARKER_MAGIC[3]);
    assert(payload@ == MARKER_MAGIC@);
    push_u16_be(&mut payload, marker.version);
    payload.push(role);
    payload.push(0);
    assert(payload@ == MARKER_MAGIC@ + u16_be_bytes(marker.version) + seq![role_code(marker.role), 0u8]);
    push_u32_be(&mut payload, marker.logical_layer_id);
    push_u32_be(&mut payload, marker.variant_index);
    push_u32_be(&mut payload, marker.variant_count);
    payload
}

/// Decodes one marker payload, rejecting unknown versions and malformed roles.
pub fn decode_marker(data: &[u8]) -> (marker: Option<LayerMarker>)
    ensures
        marker == decoded_marker(data@),
{
    if data.len() != MARKER_SIZE || data[0] != MARKER_MAGIC[0] || data[1] != MARKER_MAGIC[1]
        || data[2] != MARKER_MAGIC[2] || data[3] != MARKER_MAGIC[3] {
        proof {
            if data@.len() == MARKER_SIZE {
                assert(data@.take(4)[0] == data@[0]);
                assert(data@.take(4)[1] == data@[1]);
                assert(data@.take(4)[2] == data@[2]);
                assert(data@.take(4)[3] == data@[3]);
            }
        }
        return None;
    }
    assert(data@.take(4) == MARKER_MAGIC@);
    let version = be_u16(data, 4);
    if data[7] != 0 {
        return None;
    }
    let role = if data[6] == 1 && version == LEGACY_MARKER_VERSION {
        MarkerRole::Wrapper
    } else if data[6] == 2 && version == LEGACY_MARKER_VERSION {
        MarkerRole::Variant
    } else if data[6] == 3 && version == FRAME_GROUP_MARKER_VERSION {
        MarkerRole::FrameGroup
    } else if data[6] == 4 && version == FRAME_GROUP_MARKER_VERSION {
        MarkerRole::LayerCopy
    } else {
        return None;
    };
    Some(
        LayerMarker {
            version,
            role,
            logical_layer_id: be_u32(data, 8),
            variant_index: be_u32(data, 12),
            variant_count: be_u32(data, 16),
        },
    )
}

/// The big-endian bytes of a 16-bit value read back give the value.
pub proof fn lemma_u16_be_round_trip(v: u16)
    ensures
        be_u16_at(u16_be_bytes(v), 0) == v,
{
    assert(v == (v / 256) * 256 + v % 256) by (nonlinear_arith);
}

/// The big-endian bytes of a 32-bit value read back give the value.
pub proof fn lemma_u32_be_round_trip(v: u32)
    ensures
        be_u32_at(u32_be_bytes(v), 0) == v,
{
    assert(v == (v / 16777216) * 16777216 + ((v / 65536) % 256) * 65536 + ((v / 256) % 256) * 256
        + v % 256) by (bit_vector);
}

/// Decoding an encoded marker gives the marker back, whenever its role belongs to its
/// protocol version.
pub proof fn lemma_marker_round_trip(marker: LayerMarker)
    requires
        marker_role_consistent(marker),
    ensures
        decoded_marker(marker_bytes(marker)) == Some(marker),
{
    let bytes = marker_bytes(marker);
    lemma_u16_be_round_trip(marker.version);
    lemma_u32_be_round_trip(marker.logical_layer_id);
    lemma_u32_be_round_trip(marker.variant_index);
    lemma_u32_be_round_trip(marker.variant_count);
    assert(bytes.take(4) == MARKER_MAGIC@);
    assert(bytes.subrange(4, 6) == u16_be_bytes(marker.version));
    assert(bytes.subrange(8, 12) == u32_be_bytes(marker.logical_layer_id));
    assert(bytes.subrange(12, 16) == u32_be_bytes(marker.variant_index));
    assert(bytes.subrange(16, 20) == u32_be_bytes(marker.variant_count));
    assert(be_u16_at(bytes, 4) == be_u16_at(u16_be_bytes(marker.version), 0));
    assert(be_u32_at(bytes, 8) == be_u32_at(u32_be_bytes(marker.logical_layer_id), 0));
    assert(be_u32_at(bytes, 12) == be_u32_at(u32_be_bytes(marker.variant_index), 0));
    assert(be_u32_at(bytes, 16) == be_u32_at(u32_be_bytes(marker.variant_count), 0));
}

/// Every payload that decodes is exactly the encoding of the marker it decodes to.
pub proof fn lemma_decoded_marker_is_encoded(data: Seq<u8>)
    requires
        decoded_marker(data) is Some,
    ensures
        marker_bytes(decoded_marker(data)->0) == data,
        marker_role_consistent(decoded_marker(data)->0),
{
    let marker = decoded_marker(data)->0;
    let v = be_u16_at(data, 4);
    let a = be_u32_at(data, 8);
    let b = be_u32_at(data, 12);
    let c = be_u32_at(data, 16);
    assert(u16_be_bytes(v as u16) == data.subrange(4, 6)) by {
        let (d0, d1) = (data[4], data[5]);
        assert(((d0 as int * 256 + d1 as int) / 256) == d0 as int) by (nonlinear_arith)
            requires d0 <= 255, d1 <= 255;
        assert(((d0 as int * 256 + d1 as int) % 256) == d1 as int) by (nonlinear_arith)
            requires d0 <= 255, d1 <= 255;
    }
    lemma_u32_bytes_of_value(data, 8);
    lemma_u32_bytes_of_value(data, 12);
    lemma_u32_bytes_of_value(data, 16);
    assert(marker_bytes(marker) =~= data);
}

/// Four bytes read as a big-endian value lie in the 32-bit range.
pub proof fn lemma_be_u32_range(data: Seq<u8>, at: int)
    requires
        0 <= at,
        at + 4 <= data.len(),
    ensures
        0 <= be_u32_at(data, at) <= u32::MAX,
{
    let (d0, d1, d2, d3) = (data[at], data[at + 1], data[at + 2], data[at + 3]);
    assert(0 <= d0 as int * 16777216 + d1 as int * 65536 + d2 as int * 256 + d3 as int <= u32::MAX)
        by (nonlinear_arith)
        requires
            d0 <= 255,
            d1 <= 255,
            d2 <= 255,
            d3 <= 255,
    ;
}

/// Reading four bytes as a value and writing the value back gives the same bytes.
pub proof fn lemma_u32_bytes_of_value(data: Seq<u8>, at: int)
    requires
        0 <= at,
        at + 4 <= data.len(),
    ensures
        u32_be_bytes(be_u32_at(data, at) as u32) == data.subrange(at, at + 4),
{
    let (d0, d1, d2, d3) = (data[at], data[at + 1], data[at + 2], data[at + 3]);
    let v: u32 = be_u32_at(data, at) as u32;
    assert(v == d0 as u32 * 16777216 + d1 as u32 * 65536 + d2 as u32 * 256 + d3 as u32);
    assert(v / 16777216 == d0 && (v / 65536) % 256 == d1 && (v / 256) % 256 == d2 && v % 256 == d3)
        by (bit_vector)
        requires
            v == d0 as u32 * 16777216 + d1 as u32 * 65536 + d2 as u32 * 256 + d3 as u32,
    ;
    assert(u32_be_bytes(v) =~= data.subrange(at, at + 4));
}


// ---------------------------------------------------------------------------
// Scanning the layer records for markers
// ---------------------------------------------------------------------------

/// The placeholder recorded for a marker block whose payload does not decode.
pub open spec fn invalid_marker() -> LayerMarker {
    LayerMarker {
        version: 0,
        role: MarkerRole::Wrapper,
        logical_layer_id: 0,
        variant_index: 0,
        variant_count: 0,
    }
}

/// The marker recorded for one marker block payload.
pub open spec fn recorded_marker(payload: Seq<u8>) -> LayerMarker {
    match decoded_marker(payload) {
        Some(marker) => marker,
        None => invalid_marker(),
    }
}

/// `value` rounded up to a multiple of `unit`.
pub open spec fn round_up(value: int, unit: int) -> int {
    (value + unit - 1) / unit * unit
}

/// The byte pattern of an additional-info signature given as text.
pub open spec fn signature_bytes(text: Seq<char>) -> Seq<u8> {
    text.map_values(|c: char| c as u8)
}

/// One additional-info block at offset `at`: `None` where scanning stops there, else the
/// markers the block holds (one for a marker block, none otherwise) and the offset of the
/// next block, which starts at the next even offset after the payload.
pub open spec fn block_at(extra: Seq<u8>, at: int) -> Option<(Seq<LayerMarker>, int)> {
    if at < 0 || at + 12 > extra.len() {
        None
    } else {
        let wide = extra.subrange(at, at + 4) == signature_bytes("8B64"@);
        let key = extra.subrange(at + 4, at + 8);
        if wide && at + 16 > extra.len() {
            None
        } else {
            let body = if wide { at + 16 } else { at + 12 };
            let length: int = if wide {
                (be_u64_at(extra, at + 8) as usize) as int
            } else {
                be_u32_at(extra, at + 8)
            };
            let end = body + length;
            if end > usize::MAX || end > extra.len() {
                None
            } else {
                let found = if key == MARKER_KEY@ {
                    seq![recorded_marker(extra.subrange(body, end))]
                } else {
                    seq![]
                };
                Some((found, end + end % 2))
            }
        }
    }
}

/// The markers found in the additional-info blocks of one layer's extra data, starting
/// at block offset `at`. Scanning stops at the first block that does not fit.
pub open spec fn markers_in_blocks(extra: Seq<u8>, at: int) -> Seq<LayerMarker>
    decreases extra.len() + 2 - at,
{
    match block_at(extra, at) {
        None => seq![],
        Some((found, next)) => if next > at && next <= extra.len() + 1 {
            found + markers_in_blocks(extra, next)
        } else {
            found
        },
    }
}

/// The markers found in one layer record's extra data, after its Pascal name.
pub open spec fn markers_in_extra(extra: Seq<u8>) -> Seq<LayerMarker> {
    if extra.len() < 9 {
        seq![]
    } else {
        markers_in_blocks(extra, round_up(9 + extra[8], 4))
    }
}

/// Reads one additional-info block header and payload at `cursor`.
fn next_block(extra: &[u8], cursor: usize) -> (step: Option<(Option<LayerMarker>, usize)>)
    requires
        extra@.len() <= isize::MAX,
        cursor <= extra@.len(),
        extra@.len() - cursor >= 12,
    ensures
        match block_at(extra@, cursor as int) {
            None => step is None,
            Some((found, next)) => step matches Some((marker, following)) && following == next
                && found == match marker {
                Some(m) => seq![m],
                None => seq![],
            } && cursor < next <= extra@.len() + 1,
        },
{
    let ghost at = cursor as int;
    let wide = extra[cursor] == 0x38 && extra[cursor + 1] == 0x42 && extra[cursor + 2] == 0x36
        && extra[cursor + 3] == 0x34;
    proof {
        reveal_strlit("8B64");
        let pattern = signature_bytes("8B64"@);
        assert(pattern =~= seq![0x38u8, 0x42u8, 0x36u8, 0x34u8]);
        if wide {
            assert(extra@.subrange(at, at + 4) =~= pattern);
        } else {
            assert(extra@.subrange(at, at + 4)[0] == extra@[at]);
            assert(extra@.subrange(at, at + 4)[1] == extra@[at + 1]);
            assert(extra@.subrange(at, at + 4)[2] == extra@[at + 2]);
            assert(extra@.subrange(at, at + 4)[3] == extra@[at + 3]);
        }
    }
    let is_marker = extra[cursor + 4] == MARKER_KEY[0] && extra[cursor + 5] == MARKER_KEY[1]
        && extra[cursor + 6] == MARKER_KEY[2] && extra[cursor + 7] == MARKER_KEY[3];
    proof {
        let key = extra@.subrange(at + 4, at + 8);
        if is_marker {
            assert(key =~= MARKER_KEY@);
        } else {
            assert(key[0] == extra@[at + 4]);
            assert(key[1] == extra@[at + 5]);
            assert(key[2] == extra@[at + 6]);
            assert(key[3] == extra@[at + 7]);
        }
    }
    let body: usize;
    let length: usize;
    if wide {
        if extra.len() - cursor < 16 {
            return None;
        }
        length = be_u64(extra, cursor + 8) as usize;
        body = cursor + 16;
    } else {
        length = be_u32(extra, cursor + 8) as usize;
        body = cursor + 12;
    }
    if length > extra.len() - body {
        return None;
    }
    let end = body + length;
    let next = if end % 2 == 0 { end } else { end + 1 };
    if is_marker {
        let payload = &extra[body..end];
        match decode_marker(payload) {
            Some(marker) => Some((Some(marker), next)),
            None => Some(
                (
                    Some(
                        LayerMarker {
                            version: 0,
                            role: MarkerRole::Wrapper,
                            logical_layer_id: 0,
                            variant_index: 0,
                            variant_count: 0,
                        },
                    ),
                    next,
                ),
            ),
        }
    } else {
        Some((None, next))
    }
}

/// Scans one layer's extra data for converter-owned marker blocks.
pub fn scan_extra(extra: &[u8]) -> (markers: Vec<LayerMarker>)
    requires
        extra@.len() <= isize::MAX,
    ensures
        markers@ == markers_in_extra(extra@),
{
    let mut markers: Vec<LayerMarker> = Vec::new();
    if extra.len() < 9 {
        return markers;
    }
    let name_length = extra[8] as usize;
    let mut cursor: usize = (9 + name_length + 3) / 4 * 4;
    assert(cursor == round_up(9 + extra@[8], 4));
    while cursor <= extra.len() && extra.len() - cursor >= 12
        invariant_except_break
            extra@.len() <= isize::MAX,
            markers@ + markers_in_blocks(extra@, cursor as int) == markers_in_extra(extra@),
        ensures
            markers@ == markers_in_extra(extra@),
        decreases extra@.len() + 2 - cursor,
    {
        match next_block(extra, cursor) {
            None => {
                assert(markers_in_blocks(extra@, cursor as int) == Seq::<LayerMarker>::empty());
                assert(markers@ + Seq::<LayerMarker>::empty() == markers@);
                break;
            },
            Some((found, next)) => {
                let ghost previous = markers@;
                match found {
                    Some(marker) => markers.push(marker),
                    None => {},
                }
                assert(markers_in_blocks(extra@, cursor as int) == (markers@.skip(previous.len() as int)) + markers_in_blocks(extra@, next as int));
                assert(markers@ == previous + markers@.skip(previous.len() as int));
                assert(previous + (markers@.skip(previous.len() as int) + markers_in_blocks(extra@, next as int)) == markers@ + markers_in_blocks(extra@, next as int));
                cursor = next;
            },
        }
    }
    proof {
        if !(cursor <= extra.len() && extra.len() - cursor >= 12) {
            assert(markers_in_blocks(extra@, cursor as int) == Seq::<LayerMarker>::empty());
            assert(markers@ + Seq::<LayerMarker>::empty() == markers@);
        }
    }
    markers
}

// ---------------------------------------------------------------------------
// Locating the layer records of a PSD/PSB document
// ---------------------------------------------------------------------------

/// A length field of the layer and mask section: four bytes in PSD, eight in PSB, where
/// the eight-byte form must fit the platform's address width.
pub open spec fn length_field(b: Seq<u8>, at: int, psb: bool) -> Option<int> {
    if psb {
        if at + 8 <= b.len() && be_u64_at(b, at) <= usize::MAX {
            Some(be_u64_at(b, at))
        } else {
            None
        }
    } else {
        if at + 4 <= b.len() {
            Some(be_u32_at(b, at))
        } else {
            None
        }
    }
}

/// The absolute value of a big-endian two's-complement 16-bit field.
pub open spec fn be_i16_magnitude_at(b: Seq<u8>, at: int) -> int {
    let raw = be_u16_at(b, at);
    if raw >= 32768 {
        65536 - raw
    } else {
        raw
    }
}

/// The layer-record region of a document: whether it is a PSB, the offset of the first
/// record, the number of records and the end of the layer info. `None` where the header,
/// the section lengths or the layer info bounds are invalid, truncated or overflow.
pub open spec fn layer_records_region(b: Seq<u8>) -> Option<(bool, int, int, int)> {
    if b.len() < 34 || b.take(4) != signature_bytes("8BPS"@) {
        None
    } else {
        let version = be_u16_at(b, 4);
        if version != 1 && version != 2 {
            None
        } else {
            let psb = version == 2;
            let width: int = if psb { 8 } else { 4 };
            let resources_start = 34 + be_u32_at(b, 26);
            if resources_start > usize::MAX || resources_start > b.len() {
                None
            } else {
                let length_offset = resources_start + be_u32_at(b, resources_start - 4);
                let info_start = length_offset + width;
                if info_start > usize::MAX {
                    None
                } else {
                    match length_field(b, length_offset, psb) {
                        None => None,
                        Some(mask_length) => match length_field(b, info_start, psb) {
                            None => None,
                            Some(info_length) => {
                                let mask_end = info_start + mask_length;
                                let records_at = info_start + width;
                                let info_end = records_at + info_length;
                                if mask_end > usize::MAX || records_at > usize::MAX || info_end
                                    > usize::MAX || info_end > mask_end || info_end > b.len()
                                    || records_at + 2 > b.len() {
                                    None
                                } else {
                                    Some(
                                        (
                                            psb,
                                            records_at + 2,
                                            be_i16_magnitude_at(b, records_at),
                                            info_end,
                                        ),
                                    )
                                }
                            },
                        },
                    }
                }
            }
        }
    }
}

/// One layer record at `at`: the offset and end of its extra data, or `None` where the
/// record is truncated, overflows or its extra data runs past the layer info end.
pub open spec fn layer_record_extra(b: Seq<u8>, psb: bool, at: int, info_end: int) -> Option<
    (int, int),
> {
    let channels_at = at + 16;
    if channels_at > usize::MAX || channels_at + 2 > b.len() {
        None
    } else {
        let channel_width: int = if psb { 8 } else { 4 };
        let extra_length_at = channels_at + 2 + be_u16_at(b, channels_at) * (2 + channel_width)
            + 12;
        if extra_length_at > usize::MAX || extra_length_at + 4 > b.len() {
            None
        } else {
            let extra_start = extra_length_at + 4;
            let extra_end = extra_start + be_u32_at(b, extra_length_at);
            if extra_end > usize::MAX || extra_end > info_end {
                None
            } else {
                Some((extra_start, extra_end))
            }
        }
    }
}

/// The markers in `count` consecutive layer records starting at `at`.
pub open spec fn markers_in_records(b: Seq<u8>, psb: bool, at: int, count: nat, info_end: int) -> Option<
    Seq<LayerMarker>,
>
    decreases count,
{
    if count == 0 {
        Some(seq![])
    } else {
        match layer_record_extra(b, psb, at, info_end) {
            None => None,
            Some((start, end)) => match markers_in_records(
                b,
                psb,
                end,
                (count - 1) as nat,
                info_end,
            ) {
                None => None,
                Some(rest) => Some(markers_in_extra(b.subrange(start, end)) + rest),
            },
        }
    }
}

/// All markers of a document, in layer-record order, or `None` for an invalid document.
pub open spec fn document_markers(b: Seq<u8>) -> Option<Seq<LayerMarker>> {
    match layer_records_region(b) {
        None => None,
        Some((psb, at, count, info_end)) => markers_in_records(b, psb, at, count as nat, info_end),
    }
}

fn truncated_field() -> (error: InspectionError)
    ensures
        error matches InspectionError::PsdRead(m) && m@ == "PSD field is truncated"@,
{
    InspectionError::PsdRead("PSD field is truncated".to_owned())
}

/// Reads a big-endian 16-bit field.
pub fn read_u16(bytes: &[u8], offset: usize) -> (value: Result<u16, InspectionError>)
    ensures
        match value {
            Ok(v) => offset + 2 <= bytes@.len() && v == be_u16_at(bytes@, offset as int),
            Err(e) => offset + 2 > bytes@.len() && e is PsdRead,
        },
{
    if offset <= bytes.len() && bytes.len() - offset >= 2 {
        Ok(be_u16(bytes, offset))
    } else {
        Err(truncated_field())
    }
}

/// Reads a big-endian two's-complement 16-bit field.
pub fn read_i16(bytes: &[u8], offset: usize) -> (value: Result<i16, InspectionError>)
    ensures
        match value {
            Ok(v) => offset + 2 <= bytes@.len() && v == (if be_u16_at(bytes@, offset as int)
                >= 32768 {
                be_u16_at(bytes@, offset as int) - 65536
            } else {
                be_u16_at(bytes@, offset as int)
            }),
            Err(e) => offset + 2 > bytes@.len() && e is PsdRead,
        },
{
    let raw = read_u16(bytes, offset)?;
    if raw >= 32768 {
        Ok((raw as i32 - 65536) as i16)
    } else {
        Ok(raw as i16)
    }
}

/// Reads a big-endian 32-bit field.
pub fn read_u32(bytes: &[u8], offset: usize) -> (value: Result<u32, InspectionError>)
    ensures
        match value {
            Ok(v) => offset + 4 <= bytes@.len() && v == be_u32_at(bytes@, offset as int),
            Err(e) => offset + 4 > bytes@.len() && e is PsdRead,
        },
{
    if offset <= bytes.len() && bytes.len() - offset >= 4 {
        Ok(be_u32(bytes, offset))
    } else {
        Err(truncated_field())
    }
}

/// Reads a section length: four bytes in PSD, eight in PSB.
pub fn read_length(bytes: &[u8], offset: usize, psb: bool) -> (value: Result<usize, InspectionError>)
    ensures
        match value {
            Ok(v) => length_field(bytes@, offset as int, psb) == Some(v as int),
            Err(e) => length_field(bytes@, offset as int, psb) is None && e is PsdRead,
        },
{
    if psb {
        if offset <= bytes.len() && bytes.len() - offset >= 8 {
            let value = be_u64(bytes, offset);
            if value <= usize::MAX as u64 {
                Ok(value as usize)
            } else {
                Err(InspectionError::PsdRead("PSD length exceeds platform".to_string()))
            }
        } else {
            Err(InspectionError::PsdRead("PSD length is truncated".to_string()))
        }
    } else {
        let value = read_u32(bytes, offset)?;
        Ok(value as usize)
    }
}

fn psd_read_error(message: &str) -> (error: InspectionError)
    ensures
        error matches InspectionError::PsdRead(m) && m@ == message@,
{
    InspectionError::PsdRead(message.to_owned())
}

/// Locates the layer records: (is PSB, first record offset, record count, layer info end).
/// Whether the bytes are too short for a PSD header or lack the `8BPS` signature.
pub open spec fn bad_header(b: Seq<u8>) -> bool {
    b.len() < 34 || b.take(4) != seq![0x38u8, 0x42u8, 0x50u8, 0x53u8]
}

/// Whether an error is the read error for a bad header.
pub open spec fn header_error(e: InspectionError) -> bool {
    e matches InspectionError::PsdRead(m) && m@ == "invalid PSD header"@
}

fn locate_layer_records(bytes: &[u8]) -> (region: Result<(bool, usize, usize, usize), InspectionError>)
    ensures
        match region {
            Ok((psb, at, count, end)) => layer_records_region(bytes@) == Some(
                (psb, at as int, count as int, end as int),
            ),
            Err(e) => layer_records_region(bytes@) is None && e is PsdRead,
        },
        bad_header(bytes@) ==> (region matches Err(e) && header_error(e)),
{
    proof {
        reveal_strlit("8BPS");
        assert(signature_bytes("8BPS"@) =~= seq![0x38u8, 0x42u8, 0x50u8, 0x53u8]);
    }
    if bytes.len() < 34 || bytes[0] != 0x38 || bytes[1] != 0x42 || bytes[2] != 0x50 || bytes[3]
        != 0x53 {
        proof {
            if bytes@.len() >= 34 {
                assert(bytes@.take(4)[0] == bytes@[0]);
                assert(bytes@.take(4)[1] == bytes@[1]);
                assert(bytes@.take(4)[2] == bytes@[2]);
                assert(bytes@.take(4)[3] == bytes@[3]);
            }
        }
        return Err(psd_read_error("invalid PSD header"));
    }
    assert(bytes@.take(4) =~= signature_bytes("8BPS"@));
    assert(bytes@.take(4) =~= seq![0x38u8, 0x42u8, 0x50u8, 0x53u8]);
    let version = read_u16(bytes, 4)?;
    if version != 1 && version != 2 {
        return Err(unsupported_version(version));
    }
    let psb = version == 2;
    let width: usize = if psb { 8 } else { 4 };
    let color_length = read_u32(bytes, 26)? as usize;
    if color_length > usize::MAX - 34 {
        return Err(psd_read_error("PSD color section overflow"));
    }
    let resources_start = 34 + color_length;
    if resources_start > bytes.len() {
        return Err(truncated_field());
    }
    let resources_length = read_u32(bytes, resources_start - 4)? as usize;
    if resources_length > usize::MAX - resources_start {
        return Err(psd_read_error("PSD resource section overflow"));
    }
    let layer_length_offset = resources_start + resources_length;
    if width > usize::MAX - layer_length_offset {
        return Err(psd_read_error("PSD layer section overflow"));
    }
    let layer_info_start = layer_length_offset + width;
    let layer_mask_length = read_length(bytes, layer_length_offset, psb)?;
    if layer_mask_length > usize::MAX - layer_info_start {
        return Err(psd_read_error("PSD layer section overflow"));
    }
    let layer_mask_end = layer_info_start + layer_mask_length;
    let layer_info_length = read_length(bytes, layer_info_start, psb)?;
    if width > usize::MAX - layer_info_start {
        return Err(psd_read_error("PSD layer records overflow"));
    }
    let cursor = layer_info_start + width;
    if layer_info_length > usize::MAX - cursor {
        return Err(psd_read_error("PSD layer records overflow"));
    }
    let layer_info_end = cursor + layer_info_length;
    if layer_info_end > layer_mask_end || layer_info_end > bytes.len() {
        return Err(psd_read_error("PSD layer records are truncated"));
    }
    let count = read_i16(bytes, cursor)?;
    let magnitude: usize = if count < 0 { (0 - (count as i32)) as usize } else { count as usize };
    Ok((psb, cursor + 2, magnitude, layer_info_end))
}

/// Locates the extra data of one layer record at `cursor`.
fn layer_extra_bounds(bytes: &[u8], psb: bool, cursor: usize, info_end: usize) -> (bounds: Result<
    (usize, usize),
    InspectionError,
>)
    ensures
        match bounds {
            Ok((start, end)) => layer_record_extra(bytes@, psb, cursor as int, info_end as int)
                == Some((start as int, end as int)),
            Err(e) => layer_record_extra(bytes@, psb, cursor as int, info_end as int) is None
                && e is PsdRead,
        },
{
    let length = bytes.len();
    if cursor > usize::MAX - 16 {
        return Err(psd_read_error("PSD layer record overflow"));
    }
    let channels_at = cursor + 16;
    let channels = match read_u16(bytes, channels_at) {
        Ok(value) => value as usize,
        Err(e) => {
            return Err(e);
        },
    };
    let channel_width: usize = if psb { 8 } else { 4 };
    assert(channels * (2 + channel_width) <= 655350) by (nonlinear_arith)
        requires
            channels <= 65535,
            channel_width <= 8,
    ;
    let span = channels * (2 + channel_width);
    assert(channels_at + 2 <= length);
    let after_channels = channels_at + 2;
    if span > usize::MAX - after_channels || 12 > usize::MAX - (after_channels + span) {
        return Err(psd_read_error("PSD layer record overflow"));
    }
    let extra_length_at = after_channels + span + 12;
    let extra_length = match read_u32(bytes, extra_length_at) {
        Ok(value) => value as usize,
        Err(e) => {
            return Err(e);
        },
    };
    assert(extra_length_at + 4 <= length);
    let extra_start = extra_length_at + 4;
    if extra_length > usize::MAX - extra_start {
        return Err(psd_read_error("PSD layer extra-data overflow"));
    }
    let extra_end = extra_start + extra_length;
    if extra_end > info_end {
        return Err(psd_read_error("PSD layer extra-data is truncated"));
    }
    Ok((extra_start, extra_end))
}

/// Collects the markers of every layer record.
fn collect_document_markers(bytes: &[u8]) -> (markers: Result<Vec<LayerMarker>, InspectionError>)
    requires
        bytes@.len() <= isize::MAX,
    ensures
        match markers {
            Ok(found) => document_markers(bytes@) == Some(found@),
            Err(e) => document_markers(bytes@) is None && e is PsdRead,
        },
        bad_header(bytes@) ==> (markers matches Err(e) && header_error(e)),
{
    let (psb, start, count, info_end) = match locate_layer_records(bytes) {
        Ok(region) => region,
        Err(e) => {
            return Err(e);
        },
    };
    assert(!bad_header(bytes@));
    let mut cursor = start;
    let mut markers: Vec<LayerMarker> = Vec::new();
    let mut index: usize = 0;
    while index < count
        invariant
            !bad_header(bytes@),
            bytes@.len() <= isize::MAX,
            index <= count,
            info_end <= bytes@.len(),
            layer_records_region(bytes@) == Some((psb, start as int, count as int, info_end as int)),
            markers_in_records(bytes@, psb, start as int, count as nat, info_end as int) matches Some(all) ==>
                markers_in_records(bytes@, psb, cursor as int, (count - index) as nat, info_end as int)
                matches Some(rest) && all == markers@ + rest,
            markers_in_records(bytes@, psb, start as int, count as nat, info_end as int) is None ==>
                markers_in_records(bytes@, psb, cursor as int, (count - index) as nat, info_end as int) is None,
        decreases count - index,
    {
        let (extra_start, extra_end) = match layer_extra_bounds(bytes, psb, cursor, info_end) {
            Ok(bounds) => bounds,
            Err(e) => {
                return Err(e);
            },
        };
        let found = scan_extra(&bytes[extra_start..extra_end]);
        let ghost previous = markers@;
        let mut found = found;
        markers.append(&mut found);
        proof {
            let remaining = (count - index) as nat;
            let next = (count - index - 1) as nat;
            assert(markers_in_records(bytes@, psb, cursor as int, remaining, info_end as int)
                == match markers_in_records(bytes@, psb, extra_end as int, next, info_end as int) {
                    None => None,
                    Some(rest) => Some(markers_in_extra(bytes@.subrange(extra_start as int, extra_end as int)) + rest),
                });
            if markers_in_records(bytes@, psb, start as int, count as nat, info_end as int) is Some {
                let all = markers_in_records(bytes@, psb, start as int, count as nat, info_end as int)->0;
                let rest = markers_in_records(bytes@, psb, extra_end as int, next, info_end as int)->0;
                assert(all == previous + (markers_in_extra(bytes@.subrange(extra_start as int, extra_end as int)) + rest));
                assert(all == markers@ + rest);
            }
        }
        cursor = extra_end;
        index = index + 1;
    }
    proof {
        assert(markers_in_records(bytes@, psb, cursor as int, 0nat, info_end as int) == Some(Seq::<LayerMarker>::empty()));
        assert(markers@ + Seq::<LayerMarker>::empty() == markers@);
    }
    Ok(markers)
}

#[verifier::external_body]
fn unsupported_version(version: u16) -> (error: InspectionError)
    ensures
        error is PsdRead,
        error->PsdRead_0@ == "unsupported Photoshop document version: "@ + crate::text::decimal(version as int),
{
    InspectionError::PsdRead(format!("unsupported Photoshop document version: {version}"))
}


// ---------------------------------------------------------------------------
// Classifying the markers of a document
// ---------------------------------------------------------------------------

/// A marker names a logical layer and declares a non-empty variant set.
pub open spec fn marker_passes(m: LayerMarker) -> bool {
    m.variant_count != 0 && m.logical_layer_id != 0
}

/// The declared count of the first marker at or after `from` that passes.
pub open spec fn first_passing_count(ms: Seq<LayerMarker>, from: int) -> Option<u32>
    decreases ms.len() - from,
{
    if from < 0 || from >= ms.len() {
        None
    } else if marker_passes(ms[from]) {
        Some(ms[from].variant_count)
    } else {
        first_passing_count(ms, from + 1)
    }
}

/// Two markers have the given role and agree on the chosen key fields.
pub open spec fn same_key(a: LayerMarker, b: LayerMarker, role: MarkerRole, by_id: bool, by_index: bool) -> bool {
    &&& a.role == role
    &&& b.role == role
    &&& (by_id ==> a.logical_layer_id == b.logical_layer_id)
    &&& (by_index ==> a.variant_index == b.variant_index)
}

/// No two markers of `role` share the chosen key.
pub open spec fn keys_distinct(ms: Seq<LayerMarker>, role: MarkerRole, by_id: bool, by_index: bool) -> bool {
    forall|i: int, j: int|
        0 <= i < j < ms.len() ==> !#[trigger] same_key(ms[i], ms[j], role, by_id, by_index)
}

/// Some marker of `role` (and of layer `id`, where one is given) has index `k`.
pub open spec fn has_indexed(ms: Seq<LayerMarker>, role: MarkerRole, id: Option<u32>, k: int) -> bool {
    exists|j: int|
        0 <= j < ms.len() && #[trigger] ms[j].role == role && (id matches Some(x) ==> ms[j].logical_layer_id == x)
            && ms[j].variant_index == k
}

/// Every index `1..=count` is carried by some marker of `role` (and of layer `id`).
pub open spec fn covers(ms: Seq<LayerMarker>, role: MarkerRole, id: Option<u32>, count: int) -> bool {
    forall|k: int| 1 <= k <= count ==> #[trigger] has_indexed(ms, role, id, k)
}

/// Every marker passes.
pub open spec fn all_pass(ms: Seq<LayerMarker>) -> bool {
    forall|i: int| 0 <= i < ms.len() ==> marker_passes(#[trigger] ms[i])
}

/// A frame-group marker's own shape: it declares `frames` frames, an index in range, and a
/// frame-group role.
pub open spec fn frame_marker_shape(m: LayerMarker, frames: int) -> bool {
    &&& m.variant_count == frames
    &&& 1 <= m.variant_index <= m.variant_count
    &&& (m.role == MarkerRole::FrameGroup || m.role == MarkerRole::LayerCopy)
}

/// A coherent frame-group layout of `frames` frames: frame groups carrying each frame
/// index once, and layer copies carrying, for each copied layer, each frame index once.
pub open spec fn frame_group_valid(ms: Seq<LayerMarker>, frames: int) -> bool {
    &&& all_pass(ms)
    &&& forall|i: int| 0 <= i < ms.len() ==> frame_marker_shape(#[trigger] ms[i], frames)
    &&& keys_distinct(ms, MarkerRole::FrameGroup, false, true)
    &&& keys_distinct(ms, MarkerRole::LayerCopy, true, true)
    &&& covers(ms, MarkerRole::FrameGroup, None, frames)
    &&& exists|i: int| 0 <= i < ms.len() && #[trigger] ms[i].role == MarkerRole::LayerCopy
    &&& forall|i: int| 0 <= i < ms.len() && #[trigger] ms[i].role == MarkerRole::LayerCopy
        ==> covers(ms, MarkerRole::LayerCopy, Some(ms[i].logical_layer_id), frames)
}

/// A legacy marker's own shape: a wrapper has index zero, a variant an index in range.
pub open spec fn legacy_marker_shape(m: LayerMarker) -> bool {
    &&& (m.role == MarkerRole::Wrapper || m.role == MarkerRole::Variant)
    &&& (m.role == MarkerRole::Wrapper ==> m.variant_index == 0)
    &&& (m.role == MarkerRole::Variant ==> 1 <= m.variant_index <= m.variant_count)
}

/// Every variant of layer `id` carries an index of at most `count`.
pub open spec fn variants_within(ms: Seq<LayerMarker>, id: u32, count: int) -> bool {
    forall|j: int|
        0 <= j < ms.len() && #[trigger] ms[j].role == MarkerRole::Variant && ms[j].logical_layer_id
            == id ==> ms[j].variant_index <= count
}

/// Some wrapper names layer `id`.
pub open spec fn has_wrapper(ms: Seq<LayerMarker>, id: u32) -> bool {
    exists|j: int|
        0 <= j < ms.len() && #[trigger] ms[j].role == MarkerRole::Wrapper && ms[j].logical_layer_id
            == id
}

/// A coherent wrapper/variant layout: each wrapper names a distinct layer and is matched by
/// variants carrying exactly the indices `1..=count`, and every variant has its wrapper.
pub open spec fn legacy_valid(ms: Seq<LayerMarker>) -> bool {
    &&& all_pass(ms)
    &&& forall|i: int| 0 <= i < ms.len() ==> legacy_marker_shape(#[trigger] ms[i])
    &&& keys_distinct(ms, MarkerRole::Wrapper, true, false)
    &&& keys_distinct(ms, MarkerRole::Variant, true, true)
    &&& forall|i: int| 0 <= i < ms.len() && #[trigger] ms[i].role == MarkerRole::Wrapper ==> {
        &&& covers(ms, MarkerRole::Variant, Some(ms[i].logical_layer_id), ms[i].variant_count as int)
        &&& variants_within(ms, ms[i].logical_layer_id, ms[i].variant_count as int)
    }
    &&& forall|i: int| 0 <= i < ms.len() && #[trigger] ms[i].role == MarkerRole::Variant
        ==> has_wrapper(ms, ms[i].logical_layer_id)
}

/// Whether all markers declare the same protocol version.
pub open spec fn single_version(ms: Seq<LayerMarker>) -> bool {
    forall|i: int| 0 <= i < ms.len() ==> #[trigger] ms[i].version == ms[0].version
}

/// The classification of a document's markers.
pub open spec fn classify(ms: Seq<LayerMarker>) -> RoundTripLayout {
    if ms.len() == 0 {
        RoundTripLayout {
            status: RoundTripStatus { marked: false, valid: true },
            version: None,
            frame_count: None,
        }
    } else if !single_version(ms) {
        RoundTripLayout {
            status: RoundTripStatus { marked: true, valid: false },
            version: None,
            frame_count: None,
        }
    } else if ms[0].version == FRAME_GROUP_MARKER_VERSION {
        let frames = first_passing_count(ms, 0);
        RoundTripLayout {
            status: RoundTripStatus {
                marked: true,
                valid: frames matches Some(c) && frame_group_valid(ms, c as int),
            },
            version: Some(FRAME_GROUP_MARKER_VERSION),
            frame_count: frames,
        }
    } else {
        RoundTripLayout {
            status: RoundTripStatus { marked: true, valid: legacy_valid(ms) },
            version: if ms[0].version == LEGACY_MARKER_VERSION { Some(LEGACY_MARKER_VERSION) } else { None },
            frame_count: None,
        }
    }
}

fn all_markers_pass(ms: &Vec<LayerMarker>) -> (result: bool)
    ensures
        result == all_pass(ms@),
{
    let mut i: usize = 0;
    while i < ms.len()
        invariant
            i <= ms.len(),
            forall|j: int| 0 <= j < i ==> marker_passes(#[trigger] ms@[j]),
        decreases ms.len() - i,
    {
        if ms[i].variant_count == 0 || ms[i].logical_layer_id == 0 {
            return false;
        }
        i = i + 1;
    }
    true
}

fn first_passing(ms: &Vec<LayerMarker>) -> (count: Option<u32>)
    ensures
        count == first_passing_count(ms@, 0),
{
    let mut i: usize = 0;
    while i < ms.len()
        invariant
            i <= ms.len(),
            first_passing_count(ms@, 0) == first_passing_count(ms@, i as int),
        decreases ms.len() - i,
    {
        if ms[i].variant_count != 0 && ms[i].logical_layer_id != 0 {
            return Some(ms[i].variant_count);
        }
        i = i + 1;
    }
    None
}

fn same_marker_key(a: &LayerMarker, b: &LayerMarker, role: MarkerRole, by_id: bool, by_index: bool) -> (result: bool)
    ensures
        result == same_key(*a, *b, role, by_id, by_index),
{
    a.role == role && b.role == role && (!by_id || a.logical_layer_id == b.logical_layer_id) && (
    !by_index || a.variant_index == b.variant_index)
}

fn markers_keys_distinct(ms: &Vec<LayerMarker>, role: MarkerRole, by_id: bool, by_index: bool) -> (result: bool)
    ensures
        result == keys_distinct(ms@, role, by_id, by_index),
{
    let mut j: usize = 0;
    while j < ms.len()
        invariant
            j <= ms.len(),
            forall|a: int, b: int|
                0 <= a < b < j ==> !#[trigger] same_key(ms@[a], ms@[b], role, by_id, by_index),
        decreases ms.len() - j,
    {
        let mut i: usize = 0;
        while i < j
            invariant
                i <= j < ms.len(),
                forall|a: int| 0 <= a < i ==> !#[trigger] same_key(ms@[a], ms@[j as int], role, by_id, by_index),
            decreases j - i,
        {
            if same_marker_key(&ms[i], &ms[j], role, by_id, by_index) {
                return false;
            }
            i = i + 1;
        }
        j = j + 1;
    }
    true
}

fn has_marker_indexed(ms: &Vec<LayerMarker>, role: MarkerRole, id: Option<u32>, k: u32) -> (result: bool)
    ensures
        result == has_indexed(ms@, role, id, k as int),
{
    let mut j: usize = 0;
    while j < ms.len()
        invariant
            j <= ms.len(),
            forall|a: int|
                0 <= a < j ==> !(#[trigger] ms@[a].role == role && (id matches Some(x) ==> ms@[a].logical_layer_id == x)
                    && ms@[a].variant_index == k),
        decreases ms.len() - j,
    {
        let id_matches = match id {
            Some(x) => ms[j].logical_layer_id == x,
            None => true,
        };
        if ms[j].role == role && id_matches && ms[j].variant_index == k {
            return true;
        }
        j = j + 1;
    }
    false
}

fn covers_indices(ms: &Vec<LayerMarker>, role: MarkerRole, id: Option<u32>, count: u32) -> (result: bool)
    ensures
        result == covers(ms@, role, id, count as int),
{
    let mut k: u64 = 1;
    while k <= count as u64
        invariant
            1 <= k,
            k <= count + 1,
            forall|q: int| 1 <= q < k ==> #[trigger] has_indexed(ms@, role, id, q),
        decreases count + 1 - k,
    {
        if !has_marker_indexed(ms, role, id, k as u32) {
            return false;
        }
        k = k + 1;
    }
    true
}

fn markers_share_version(ms: &Vec<LayerMarker>) -> (result: bool)
    requires
        ms@.len() > 0,
    ensures
        result == single_version(ms@),
{
    let version = ms[0].version;
    let mut i: usize = 1;
    while i < ms.len()
        invariant
            1 <= i <= ms.len(),
            version == ms@[0].version,
            forall|j: int| 0 <= j < i ==> #[trigger] ms@[j].version == version,
        decreases ms.len() - i,
    {
        if ms[i].version != version {
            return false;
        }
        i = i + 1;
    }
    true
}

fn copy_seen_before(ms: &Vec<LayerMarker>, i: usize) -> (result: bool)
    requires
        i < ms@.len(),
    ensures
        result == exists|j: int|
            0 <= j < i && #[trigger] ms@[j].role == MarkerRole::LayerCopy && ms@[j].logical_layer_id
                == ms@[i as int].logical_layer_id,
{
    let mut j: usize = 0;
    while j < i
        invariant
            j <= i < ms@.len(),
            forall|q: int|
                0 <= q < j ==> !(#[trigger] ms@[q].role == MarkerRole::LayerCopy
                    && ms@[q].logical_layer_id == ms@[i as int].logical_layer_id),
        decreases i - j,
    {
        if ms[j].role == MarkerRole::LayerCopy && ms[j].logical_layer_id == ms[i].logical_layer_id {
            return true;
        }
        j = j + 1;
    }
    false
}

fn frame_group_layout_valid(ms: &Vec<LayerMarker>, frames: u32) -> (result: bool)
    ensures
        result == frame_group_valid(ms@, frames as int),
{
    if !all_markers_pass(ms) {
        return false;
    }
    let mut any_copy = false;
    let mut i: usize = 0;
    while i < ms.len()
        invariant
            i <= ms.len(),
            forall|j: int| 0 <= j < i ==> frame_marker_shape(#[trigger] ms@[j], frames as int),
            any_copy == exists|j: int| 0 <= j < i && #[trigger] ms@[j].role == MarkerRole::LayerCopy,
        decreases ms.len() - i,
    {
        let m = ms[i];
        if m.variant_count != frames || m.variant_index == 0 || m.variant_index > m.variant_count
            || (m.role != MarkerRole::FrameGroup && m.role != MarkerRole::LayerCopy) {
            assert(!frame_marker_shape(ms@[i as int], frames as int));
            return false;
        }
        if m.role == MarkerRole::LayerCopy {
            any_copy = true;
        }
        i = i + 1;
    }
    if !any_copy {
        return false;
    }
    if !markers_keys_distinct(ms, MarkerRole::FrameGroup, false, true) {
        return false;
    }
    if !markers_keys_distinct(ms, MarkerRole::LayerCopy, true, true) {
        return false;
    }
    if !covers_indices(ms, MarkerRole::FrameGroup, None, frames) {
        return false;
    }
    let mut i: usize = 0;
    while i < ms.len()
        invariant
            i <= ms.len(),
            forall|j: int|
                0 <= j < i && #[trigger] ms@[j].role == MarkerRole::LayerCopy ==> covers(
                    ms@,
                    MarkerRole::LayerCopy,
                    Some(ms@[j].logical_layer_id),
                    frames as int,
                ),
        decreases ms.len() - i,
    {
        if ms[i].role == MarkerRole::LayerCopy && !copy_seen_before(ms, i) {
            if !covers_indices(ms, MarkerRole::LayerCopy, Some(ms[i].logical_layer_id), frames) {
                return false;
            }
        }
        i = i + 1;
    }
    true
}

fn variants_within_count(ms: &Vec<LayerMarker>, id: u32, count: u32) -> (result: bool)
    ensures
        result == variants_within(ms@, id, count as int),
{
    let mut j: usize = 0;
    while j < ms.len()
        invariant
            j <= ms.len(),
            forall|q: int|
                0 <= q < j && #[trigger] ms@[q].role == MarkerRole::Variant && ms@[q].logical_layer_id
                    == id ==> ms@[q].variant_index <= count,
        decreases ms.len() - j,
    {
        if ms[j].role == MarkerRole::Variant && ms[j].logical_layer_id == id && ms[j].variant_index
            > count {
            return false;
        }
        j = j + 1;
    }
    true
}

fn wrapper_present(ms: &Vec<LayerMarker>, id: u32) -> (result: bool)
    ensures
        result == has_wrapper(ms@, id),
{
    let mut j: usize = 0;
    while j < ms.len()
        invariant
            j <= ms.len(),
            forall|q: int|
                0 <= q < j ==> !(#[trigger] ms@[q].role == MarkerRole::Wrapper
                    && ms@[q].logical_layer_id == id),
        decreases ms.len() - j,
    {
        if ms[j].role == MarkerRole::Wrapper && ms[j].logical_layer_id == id {
            return true;
        }
        j = j + 1;
    }
    false
}

fn legacy_layout_valid(ms: &Vec<LayerMarker>) -> (result: bool)
    ensures
        result == legacy_valid(ms@),
{
    if !all_markers_pass(ms) {
        return false;
    }
    let mut i: usize = 0;
    while i < ms.len()
        invariant
            i <= ms.len(),
            forall|j: int| 0 <= j < i ==> legacy_marker_shape(#[trigger] ms@[j]),
        decreases ms.len() - i,
    {
        let m = ms[i];
        let shaped = match m.role {
            MarkerRole::Wrapper => m.variant_index == 0,
            MarkerRole::Variant => m.variant_index >= 1 && m.variant_index <= m.variant_count,
            _ => false,
        };
        if !shaped {
            assert(!legacy_marker_shape(ms@[i as int]));
            return false;
        }
        i = i + 1;
    }
    if !markers_keys_distinct(ms, MarkerRole::Wrapper, true, false) {
        return false;
    }
    if !markers_keys_distinct(ms, MarkerRole::Variant, true, true) {
        return false;
    }
    let mut i: usize = 0;
    while i < ms.len()
        invariant
            i <= ms.len(),
            forall|j: int| 0 <= j < i && #[trigger] ms@[j].role == MarkerRole::Wrapper ==> {
                &&& covers(ms@, MarkerRole::Variant, Some(ms@[j].logical_layer_id), ms@[j].variant_count as int)
                &&& variants_within(ms@, ms@[j].logical_layer_id, ms@[j].variant_count as int)
            },
            forall|j: int| 0 <= j < i && #[trigger] ms@[j].role == MarkerRole::Variant
                ==> has_wrapper(ms@, ms@[j].logical_layer_id),
        decreases ms.len() - i,
    {
        let m = ms[i];
        if m.role == MarkerRole::Wrapper {
            if !covers_indices(ms, MarkerRole::Variant, Some(m.logical_layer_id), m.variant_count) {
                return false;
            }
            if !variants_within_count(ms, m.logical_layer_id, m.variant_count) {
                return false;
            }
        } else if m.role == MarkerRole::Variant {
            if !wrapper_present(ms, m.logical_layer_id) {
                return false;
            }
        }
        i = i + 1;
    }
    true
}

/// Classifies a document's markers: unmarked, mixed versions, a frame-group layout or a
/// wrapper/variant layout, and whether the layout is coherent.
pub fn classify_markers(ms: &Vec<LayerMarker>) -> (layout: RoundTripLayout)
    ensures
        layout == classify(ms@),
{
    if ms.len() == 0 {
        return RoundTripLayout {
            status: RoundTripStatus { marked: false, valid: true },
            version: None,
            frame_count: None,
        };
    }
    if !markers_share_version(ms) {
        return RoundTripLayout {
            status: RoundTripStatus { marked: true, valid: false },
            version: None,
            frame_count: None,
        };
    }
    let version = ms[0].version;
    if version == FRAME_GROUP_MARKER_VERSION {
        let frames = first_passing(ms);
        let valid = match frames {
            Some(count) => frame_group_layout_valid(ms, count),
            None => false,
        };
        RoundTripLayout {
            status: RoundTripStatus { marked: true, valid },
            version: Some(FRAME_GROUP_MARKER_VERSION),
            frame_count: frames,
        }
    } else {
        RoundTripLayout {
            status: RoundTripStatus { marked: true, valid: legacy_layout_valid(ms) },
            version: if version == LEGACY_MARKER_VERSION { Some(LEGACY_MARKER_VERSION) } else { None },
            frame_count: None,
        }
    }
}

/// A marker block payload that does not decode is recorded as the placeholder marker, and
/// only such a payload is: every decoded marker declares a protocol version, the
/// placeholder none.
pub proof fn lemma_undecodable_is_placeholder(payload: Seq<u8>)
    ensures
        (recorded_marker(payload) == invalid_marker()) <==> decoded_marker(payload) is None,
{
    if let Some(m) = decoded_marker(payload) {
        assert(role_for(be_u16_at(payload, 4), payload[6]) is Some);
        assert(m.version == LEGACY_MARKER_VERSION || m.version == FRAME_GROUP_MARKER_VERSION);
    }
}

/// The round-trip status of a document whose marker blocks give `ms`: it is marked exactly
/// when at least one marker block was found; an unmarked document is valid; and a single
/// block that does not decode makes the document invalid.
pub proof fn lemma_status_of_markers(ms: Seq<LayerMarker>)
    ensures
        classify(ms).status.marked == (ms.len() > 0),
        !classify(ms).status.marked ==> classify(ms).status.valid,
        (exists|i: int| 0 <= i < ms.len() && #[trigger] ms[i] == invalid_marker()) ==> !classify(ms).status.valid,
{
    if exists|i: int| 0 <= i < ms.len() && #[trigger] ms[i] == invalid_marker() {
        let i = choose|i: int| 0 <= i < ms.len() && #[trigger] ms[i] == invalid_marker();
        if single_version(ms) {
            assert(ms[i].version == ms[0].version);
            assert(!marker_passes(ms[i]));
            assert(!all_pass(ms));
        }
    }
}

/// A document whose markers all decode under the wrapper/variant protocol is valid exactly
/// when every marker names a layer and a non-empty variant set, each wrapper has index
/// zero and names a layer no other wrapper names, each variant has an index within its
/// count and no other variant shares its layer and index, each wrapper's layer has
/// variants carrying exactly the indices `1..=count`, and every variant has a wrapper.
pub proof fn lemma_legacy_status(ms: Seq<LayerMarker>)
    requires
        ms.len() > 0,
        forall|i: int| 0 <= i < ms.len() ==> (#[trigger] ms[i]).version == LEGACY_MARKER_VERSION
            && marker_role_consistent(ms[i]),
    ensures
        classify(ms).status.marked,
        classify(ms).status.valid <==> {
            &&& forall|i: int| 0 <= i < ms.len() ==> (#[trigger] ms[i]).logical_layer_id > 0 && ms[i].variant_count > 0
            &&& forall|i: int| 0 <= i < ms.len() && (#[trigger] ms[i]).role == MarkerRole::Wrapper ==> ms[i].variant_index == 0
            &&& forall|i: int| 0 <= i < ms.len() && (#[trigger] ms[i]).role == MarkerRole::Variant
                ==> 1 <= ms[i].variant_index <= ms[i].variant_count
            &&& keys_distinct(ms, MarkerRole::Wrapper, true, false)
            &&& keys_distinct(ms, MarkerRole::Variant, true, true)
            &&& forall|i: int| 0 <= i < ms.len() && (#[trigger] ms[i]).role == MarkerRole::Wrapper ==> {
                &&& covers(ms, MarkerRole::Variant, Some(ms[i].logical_layer_id), ms[i].variant_count as int)
                &&& variants_within(ms, ms[i].logical_layer_id, ms[i].variant_count as int)
            }
            &&& forall|i: int| 0 <= i < ms.len() && (#[trigger] ms[i]).role == MarkerRole::Variant
                ==> has_wrapper(ms, ms[i].logical_layer_id)
        },
{
    assert(single_version(ms));
    assert forall|i: int| 0 <= i < ms.len() implies ((#[trigger] ms[i]).role == MarkerRole::Wrapper
        || ms[i].role == MarkerRole::Variant) by {
        assert(marker_role_consistent(ms[i]));
    }
}

/// A frame-group layout missing the frame group of some frame `k` of its `n` frames is
/// invalid: a valid layout has a frame group for every frame.
pub proof fn lemma_missing_frame_group_is_invalid(ms: Seq<LayerMarker>, n: u32, k: int)
    requires
        classify(ms).version == Some(FRAME_GROUP_MARKER_VERSION),
        classify(ms).frame_count == Some(n),
        1 <= k <= n,
        forall|j: int| 0 <= j < ms.len() ==> !((#[trigger] ms[j]).role == MarkerRole::FrameGroup && ms[j].variant_index == k),
    ensures
        !classify(ms).status.valid,
{
    if classify(ms).status.valid {
        assert(has_indexed(ms, MarkerRole::FrameGroup, None, k));
    }
}

/// In a valid frame-group layout of `n` frames every marker declares `n` frames and an
/// index in `1..=n`, no two frame groups share an index, and every layer that has a copy
/// has a copy for each frame `k` in `1..=n`.
pub proof fn lemma_valid_frame_layout(ms: Seq<LayerMarker>, n: u32, i: int, j: int, k: int)
    requires
        classify(ms).version == Some(FRAME_GROUP_MARKER_VERSION),
        classify(ms).frame_count == Some(n),
        classify(ms).status.valid,
        0 <= i < ms.len(),
        0 <= j < ms.len(),
        1 <= k <= n,
    ensures
        ms[i].variant_count == n && 1 <= ms[i].variant_index <= n,
        i != j && ms[i].role == MarkerRole::FrameGroup && ms[j].role == MarkerRole::FrameGroup
            ==> ms[i].variant_index != ms[j].variant_index,
        ms[i].role == MarkerRole::LayerCopy ==> exists|c: int| 0 <= c < ms.len() && (#[trigger] ms[c]).role == MarkerRole::LayerCopy
            && ms[c].logical_layer_id == ms[i].logical_layer_id && ms[c].variant_index == k,
        ms[i].logical_layer_id > 0,
        ms[i].role == MarkerRole::FrameGroup || ms[i].role == MarkerRole::LayerCopy,
        i != j && ms[i].role == MarkerRole::LayerCopy && ms[j].role == MarkerRole::LayerCopy
            && ms[i].logical_layer_id == ms[j].logical_layer_id ==> ms[i].variant_index != ms[j].variant_index,
        exists|c: int| 0 <= c < ms.len() && (#[trigger] ms[c]).role == MarkerRole::LayerCopy,
{
    assert(frame_marker_shape(ms[i], n as int));
    assert(marker_passes(ms[i]));
    if i != j && ms[i].role == MarkerRole::LayerCopy && ms[j].role == MarkerRole::LayerCopy {
        if i < j {
            assert(!same_key(ms[i], ms[j], MarkerRole::LayerCopy, true, true));
        } else {
            assert(!same_key(ms[j], ms[i], MarkerRole::LayerCopy, true, true));
        }
    }
    if i != j && ms[i].role == MarkerRole::FrameGroup && ms[j].role == MarkerRole::FrameGroup {
        if i < j {
            assert(!same_key(ms[i], ms[j], MarkerRole::FrameGroup, false, true));
        } else {
            assert(!same_key(ms[j], ms[i], MarkerRole::FrameGroup, false, true));
        }
    }
    if ms[i].role == MarkerRole::LayerCopy {
        assert(covers(ms, MarkerRole::LayerCopy, Some(ms[i].logical_layer_id), n as int));
        assert(has_indexed(ms, MarkerRole::LayerCopy, Some(ms[i].logical_layer_id), k));
    }
}

/// In a valid wrapper/variant layout every marker names a layer and a non-empty variant
/// set; a wrapper has index zero and is the only wrapper of its layer; a variant has an index
/// within its count, is the only variant of its layer with that index, and its layer has a
/// wrapper whose count bounds the index.
pub proof fn lemma_valid_legacy_layout(ms: Seq<LayerMarker>, i: int, j: int)
    requires
        ms.len() > 0,
        ms[0].version != FRAME_GROUP_MARKER_VERSION,
        classify(ms).status.valid,
        0 <= i < ms.len(),
        0 <= j < ms.len(),
    ensures
        ms[i].logical_layer_id > 0 && ms[i].variant_count > 0,
        ms[i].role == MarkerRole::Wrapper || ms[i].role == MarkerRole::Variant,
        ms[i].role == MarkerRole::Wrapper ==> ms[i].variant_index == 0,
        ms[i].role == MarkerRole::Variant ==> 1 <= ms[i].variant_index <= ms[i].variant_count,
        i != j && ms[i].role == MarkerRole::Wrapper && ms[j].role == MarkerRole::Wrapper ==> ms[i].logical_layer_id != ms[j].logical_layer_id,
        i != j && ms[i].role == MarkerRole::Variant && ms[j].role == MarkerRole::Variant && ms[i].logical_layer_id == ms[j].logical_layer_id
            ==> ms[i].variant_index != ms[j].variant_index,
        ms[i].role == MarkerRole::Variant ==> exists|w: int| 0 <= w < ms.len() && (#[trigger] ms[w]).role == MarkerRole::Wrapper
            && ms[w].logical_layer_id == ms[i].logical_layer_id,
        ms[i].role == MarkerRole::Variant && ms[j].role == MarkerRole::Wrapper && ms[j].logical_layer_id == ms[i].logical_layer_id
            ==> ms[i].variant_index <= ms[j].variant_count,
{
    assert(single_version(ms));
    assert(legacy_valid(ms));
    assert(marker_passes(ms[i]));
    assert(legacy_marker_shape(ms[i]));
    if i != j {
        if i < j {
            assert(!same_key(ms[i], ms[j], MarkerRole::Wrapper, true, false));
            assert(!same_key(ms[i], ms[j], MarkerRole::Variant, true, true));
        } else {
            assert(!same_key(ms[j], ms[i], MarkerRole::Wrapper, true, false));
            assert(!same_key(ms[j], ms[i], MarkerRole::Variant, true, true));
        }
    }
    if ms[i].role == MarkerRole::Variant {
        assert(has_wrapper(ms, ms[i].logical_layer_id));
        if ms[j].role == MarkerRole::Wrapper && ms[j].logical_layer_id == ms[i].logical_layer_id {
            assert(variants_within(ms, ms[j].logical_layer_id, ms[j].variant_count as int));
        }
    }
}

/// A wrapper/variant layout in which some wrapper of `count` variants lacks the variant of
/// some index `k` in `1..=count` is invalid.
pub proof fn lemma_missing_variant_is_invalid(ms: Seq<LayerMarker>, w: int, k: int)
    requires
        ms.len() > 0,
        ms[0].version != FRAME_GROUP_MARKER_VERSION,
        0 <= w < ms.len(),
        ms[w].role == MarkerRole::Wrapper,
        1 <= k <= ms[w].variant_count,
        forall|j: int| 0 <= j < ms.len() ==> !((#[trigger] ms[j]).role == MarkerRole::Variant
            && ms[j].logical_layer_id == ms[w].logical_layer_id && ms[j].variant_index == k),
    ensures
        !classify(ms).status.valid,
{
    if classify(ms).status.valid {
        assert(covers(ms, MarkerRole::Variant, Some(ms[w].logical_layer_id), ms[w].variant_count as int));
        assert(has_indexed(ms, MarkerRole::Variant, Some(ms[w].logical_layer_id), k));
    }
}

/// Scans markers and reports whether the document carries a coherent protocol layout.
pub fn inspect_detailed(bytes: &[u8]) -> (layout: Result<RoundTripLayout, InspectionError>)
    requires
        bytes@.len() <= isize::MAX,
    ensures
        match layout {
            Ok(found) => document_markers(bytes@) matches Some(ms) && found == classify(ms),
            Err(e) => document_markers(bytes@) is None && e is PsdRead,
        },
        bad_header(bytes@) ==> (layout matches Err(e) && header_error(e)),
{
    match collect_document_markers(bytes) {
        Ok(markers) => Ok(classify_markers(&markers)),
        Err(e) => Err(e),
    }
}

/// Scans PSD/PSB layer records and validates converter-owned marker sets.
pub fn inspect(bytes: &[u8]) -> (status: Result<RoundTripStatus, InspectionError>)
    requires
        bytes@.len() <= isize::MAX,
    ensures
        match status {
            Ok(found) => document_markers(bytes@) matches Some(ms) && found == classify(ms).status,
            Err(e) => document_markers(bytes@) is None && e is PsdRead,
        },
        bad_header(bytes@) ==> (status matches Err(e) && header_error(e)),
{
    match inspect_detailed(bytes) {
        Ok(layout) => Ok(layout.status),
        Err(e) => Err(e),
    }
}

} // verus!
