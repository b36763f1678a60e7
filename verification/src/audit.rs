//! The top-level framing of the PSD structure audit: the file header and its findings, the
//! three length-prefixed sections that follow it, and the composite image section.
use vstd::prelude::*;

use crate::roundtrip::{be_u16_at, be_u32_at, be_u64_at};
use crate::structure_audit::{
    ascii, block, composite_verdict, digest, hex, hex_text, issue, readable_char, sha256_of, validate_composite,
    AuditCursor, Block, Issue,
};
use vstd::string::StringExecFns;

verus! {

/// The text a checked read reports when `length` bytes do not fit after offset `at`.
pub open spec fn take_error(data: Seq<u8>, at: int, base: int, length: int, label: Seq<char>) -> Seq<char> {
    if at + length > usize::MAX {
        label + " length overflow at 0x"@ + crate::text::lower_hex((base + at) as nat)
    } else {
        "truncated "@ + label + " at 0x"@ + crate::text::lower_hex((base + at) as nat) + ": need "@
            + crate::text::decimal(length) + ", have "@ + crate::text::decimal(data.len() - at)
    }
}

/// Whether a block describes the range from `start` to `end`, declared and consumed with
/// `length` bytes, without padding, with the given payload, as parsed.
pub open spec fn parsed_block(b: Block, kind: Seq<char>, start: int, end: int, length: int, alignment: int, payload: Seq<u8>) -> bool {
    &&& b.kind@ == kind
    &&& b.start == start
    &&& b.end == end
    &&& b.declared_length == length
    &&& b.consumed_length == length
    &&& b.alignment == alignment
    &&& b.padding_hex@ == hex_text(Seq::<u8>::empty())
    &&& b.sha256@ == hex_text(sha256_of(payload))
    &&& b.preview_hex@ == hex_text(payload.take(if payload.len() <= 32 { payload.len() as int } else { 32 }))
    &&& b.status@ == "parsed"@
}

/// Reads a section made of a big-endian 32-bit length and that many payload bytes, and
/// describes it; the errors name the length field or the payload that does not fit.
pub fn length_block_u32(cursor: &mut AuditCursor, kind: &str, alignment: usize) -> (result: Result<Block, String>)
    ensures
        final(cursor)@.0 == old(cursor)@.0,
        final(cursor)@.2 == old(cursor)@.2,
        ({
            let data = old(cursor)@.0;
            let at = old(cursor)@.1;
            let base = old(cursor)@.2;
            match result {
                Ok(b) => {
                    let length = be_u32_at(data, at);
                    &&& at + 4 + length <= data.len()
                    &&& final(cursor)@.1 == at + 4 + length
                    &&& parsed_block(b, kind@, base + at, base + at + 4 + length, length, alignment as int, data.subrange(at + 4, at + 4 + length))
                },
                Err(message) => if at + 4 > data.len() {
                    message@ == take_error(data, at, base, 4, kind@ + " length"@)
                } else {
                    at + 4 + be_u32_at(data, at) > data.len()
                        && message@ == take_error(data, at + 4, base, be_u32_at(data, at), kind@)
                },
            }
        }),
{
    let start = cursor.absolute();
    let _ = cursor.position();
    let mut label = kind.to_owned();
    label.append(" length");
    let ghost at = old(cursor)@.1;
    let length_field = match cursor.take(4, label.as_str()) {
        Ok(field) => field,
        Err(message) => {
            return Err(message);
        },
    };
    assert(length_field@.len() == 4);
    let length = (length_field[0] as u32) * 16777216 + (length_field[1] as u32) * 65536
        + (length_field[2] as u32) * 256 + length_field[3] as u32;
    assert(length == be_u32_at(old(cursor)@.0, at));
    let payload = cursor.take(length as usize, kind)?;
    let end = cursor.absolute();
    let empty: Vec<u8> = Vec::new();
    let described = block(kind, start, end, length as usize, payload.len(), alignment, empty.as_slice(), payload, "parsed");
    assert(empty@ == Seq::<u8>::empty());
    Ok(described)
}

/// The decoded composite size the header asks for: channels, width, height and bytes per
/// sample multiplied, where the product fits in 64 bits.
pub open spec fn expected_size(channels: int, width: int, height: int, depth: int) -> Option<u64> {
    let per_sample = (depth + 7) / 8;
    if channels * width * height > u64::MAX || channels * width * height * per_sample > u64::MAX {
        None
    } else {
        Some((channels * width * height * per_sample) as u64)
    }
}

/// The parsed file header.
#[derive(Debug, Clone, PartialEq, Eq)]
pub struct AuditHeader {
    /// The four signature bytes, as readable text.
    pub signature: String,
    /// Format version: 1 for PSD, 2 for PSB.
    pub version: u16,
    /// The six reserved bytes in hexadecimal.
    pub reserved_hex: String,
    /// Channel count.
    pub channels: u16,
    /// Image height.
    pub height: u32,
    /// Image width.
    pub width: u32,
    /// Bits per channel.
    pub depth: u16,
    /// Color mode.
    pub color_mode: u16,
}

/// The composite image section and its framing check.
#[derive(Debug, Clone, PartialEq, Eq)]
pub struct AuditComposite {
    /// The section's range.
    pub block: Block,
    /// The compression code, when two bytes hold one.
    pub compression: Option<u16>,
    /// The decoded size the header asks for, when it fits in 64 bits.
    pub expected_decoded_bytes: Option<u64>,
    /// The decoded size found.
    pub decoded_bytes: Option<usize>,
    /// The compressed bytes the framing accounts for.
    pub compressed_bytes_consumed: Option<usize>,
    /// The verdict.
    pub validation: String,
}

/// The top-level framing of a PSD or PSB file.
#[derive(Debug, Clone, PartialEq, Eq)]
pub struct AuditFraming {
    /// File length in bytes.
    pub file_length: usize,
    /// SHA-256 digest of the file, in hexadecimal.
    pub sha256: String,
    /// The file header.
    pub header: AuditHeader,
    /// Color mode data, image resources, and layer and mask information, in file order.
    pub sections: Vec<Block>,
    /// File offset of the layer and mask information's payload.
    pub layer_mask_data_start: usize,
    /// The composite image section.
    pub composite: AuditComposite,
    /// Findings on the header and the section coverage.
    pub issues: Vec<Issue>,
}

/// Where the image resources section starts.
pub open spec fn resources_at(b: Seq<u8>) -> int {
    30 + be_u32_at(b, 26)
}

/// Where the layer and mask information section starts.
pub open spec fn layer_mask_at(b: Seq<u8>) -> int {
    resources_at(b) + 4 + be_u32_at(b, resources_at(b))
}

/// Whether the file is a PSB, with eight-byte layer and mask lengths.
pub open spec fn is_psb(b: Seq<u8>) -> bool {
    be_u16_at(b, 4) == 2
}

/// The width of the layer and mask length field.
pub open spec fn layer_mask_prefix(b: Seq<u8>) -> int {
    if is_psb(b) { 8 } else { 4 }
}

/// The declared length of the layer and mask information.
pub open spec fn layer_mask_length(b: Seq<u8>) -> int {
    if is_psb(b) { be_u64_at(b, layer_mask_at(b)) } else { be_u32_at(b, layer_mask_at(b)) }
}

/// Where the composite image section starts.
pub open spec fn composite_at(b: Seq<u8>) -> int {
    layer_mask_at(b) + layer_mask_prefix(b) + layer_mask_length(b)
}

/// Whether the header and the three length-prefixed sections fit in the file.
pub open spec fn framing_fits(b: Seq<u8>) -> bool {
    &&& 30 <= b.len()
    &&& resources_at(b) + 4 <= b.len()
    &&& layer_mask_at(b) + layer_mask_prefix(b) <= b.len()
    &&& composite_at(b) <= b.len()
}

/// Whether an issue has the given offset, severity and message.
pub open spec fn issue_is(found: Issue, offset: int, severity: Seq<char>, message: Seq<char>) -> bool {
    found.offset == offset && found.severity@ == severity && found.message@ == message
}

/// The header findings, in order: a signature other than `8BPS`, a version other than 1
/// and 2, and reserved bytes that are not zero.
pub open spec fn header_findings(b: Seq<u8>, issues: Seq<Issue>) -> bool {
    let bad_signature = b.take(4) != seq![0x38u8, 0x42, 0x50, 0x53];
    let bad_version = be_u16_at(b, 4) != 1 && be_u16_at(b, 4) != 2;
    let reserved_set = exists|i: int| 6 <= i < 12 && #[trigger] b[i] != 0;
    let n0: int = if bad_signature { 1 } else { 0 };
    let n1: int = n0 + if bad_version { 1int } else { 0int };
    &&& issues.len() == n1 + if reserved_set { 1int } else { 0int }
    &&& bad_signature ==> issue_is(issues[0], 0, "error"@, "header signature is not 8BPS"@)
    &&& bad_version ==> issue_is(issues[n0], 4, "error"@, "unsupported PSD version"@)
    &&& reserved_set ==> issue_is(issues[n1], 6, "warning"@, "reserved header bytes are not zero"@)
}

fn any_nonzero(bytes: &[u8]) -> (found: bool)
    ensures
        found == exists|i: int| 0 <= i < bytes@.len() && #[trigger] bytes@[i] != 0,
{
    let mut i: usize = 0;
    while i < bytes.len()
        invariant
            i <= bytes@.len(),
            forall|j: int| 0 <= j < i ==> bytes@[j] == 0,
        decreases bytes@.len() - i,
    {
        if bytes[i] != 0 {
            return true;
        }
        i = i + 1;
    }
    false
}

/// Audits the top-level framing of a PSD or PSB file: the header with its findings, the
/// color mode data, image resources, and layer and mask sections, the composite image
/// section with its framing check, and the file's digest. It fails where the header or a
/// section does not fit in the file.
pub fn audit_framing(bytes: &[u8]) -> (result: Result<AuditFraming, String>)
    requires
        bytes@.len() <= isize::MAX,
    ensures
        result is Ok <==> framing_fits(bytes@),
        result matches Ok(r) ==> {
            let b = bytes@;
            let la = layer_mask_at(b);
            let ca = composite_at(b);
            let verdict = composite_verdict(b.skip(ca), if b.len() - ca >= 2 { Some(be_u16_at(b, ca) as u16) } else { None },
                expected_size(be_u16_at(b, 12), be_u32_at(b, 18), be_u32_at(b, 14), be_u16_at(b, 22)), is_psb(b),
                be_u16_at(b, 12) as u16, be_u32_at(b, 14) as u32);
            &&& r.file_length == b.len()
            &&& r.sha256@ == hex_text(sha256_of(b))
            &&& r.header.signature@ == b.take(4).map_values(|c: u8| readable_char(c))
            &&& r.header.version == be_u16_at(b, 4)
            &&& r.header.reserved_hex@ == hex_text(b.subrange(6, 12))
            &&& r.header.channels == be_u16_at(b, 12)
            &&& r.header.height == be_u32_at(b, 14)
            &&& r.header.width == be_u32_at(b, 18)
            &&& r.header.depth == be_u16_at(b, 22)
            &&& r.header.color_mode == be_u16_at(b, 24)
            &&& r.sections@.len() == 3
            &&& parsed_block(r.sections@[0], "color_mode_data"@, 26, resources_at(b), be_u32_at(b, 26), 1, b.subrange(30, resources_at(b)))
            &&& parsed_block(r.sections@[1], "image_resources"@, resources_at(b), la, be_u32_at(b, resources_at(b)), 1,
                b.subrange(resources_at(b) + 4, la))
            &&& r.sections@[2].kind@ == "layer_and_mask"@
            &&& r.sections@[2].start == la
            &&& r.sections@[2].end == ca
            &&& r.sections@[2].declared_length == layer_mask_length(b)
            &&& r.sections@[2].consumed_length == layer_mask_length(b)
            &&& r.sections@[2].sha256@ == hex_text(sha256_of(b.subrange(la + layer_mask_prefix(b), ca)))
            &&& r.layer_mask_data_start == la + layer_mask_prefix(b)
            &&& r.composite.block.start == ca
            &&& r.composite.block.end == b.len()
            &&& r.composite.block.sha256@ == hex_text(sha256_of(b.skip(ca)))
            &&& r.composite.compression == (if b.len() - ca >= 2 { Some(be_u16_at(b, ca) as u16) } else { None })
            &&& r.composite.expected_decoded_bytes == expected_size(be_u16_at(b, 12), be_u32_at(b, 18), be_u32_at(b, 14), be_u16_at(b, 22))
            &&& verdict.0 == match r.composite.decoded_bytes { Some(v) => Some(v as int), None => None }
            &&& verdict.1 == match r.composite.compressed_bytes_consumed { Some(v) => Some(v as int), None => None }
            &&& verdict.2.len() > 0 ==> r.composite.validation@ == verdict.2
            &&& header_findings(b, r.issues@)
        },
{
    let mut cursor = AuditCursor::new(bytes);
    let _ = cursor.position();
    let signature = cursor.take(4, "header signature")?;
    let version = cursor.u16("version")?;
    let reserved = cursor.take(6, "reserved")?;
    let channels = cursor.u16("channels")?;
    let height = cursor.u32("height")?;
    let width = cursor.u32("width")?;
    let depth = cursor.u16("depth")?;
    let color_mode = cursor.u16("color mode")?;
    assert(signature@ == bytes@.take(4));
    let header = AuditHeader {
        signature: ascii(signature),
        version,
        reserved_hex: hex(reserved),
        channels,
        height,
        width,
        depth,
        color_mode,
    };
    let mut issues: Vec<Issue> = Vec::new();
    let bad_signature = !(signature[0] == 0x38 && signature[1] == 0x42 && signature[2] == 0x50 && signature[3] == 0x53);
    assert(bad_signature == (bytes@.take(4) != seq![0x38u8, 0x42, 0x50, 0x53])) by {
        if !bad_signature {
            assert(bytes@.take(4) =~= seq![0x38u8, 0x42, 0x50, 0x53]);
        }
    }
    if bad_signature {
        issues.push(issue(0, "error", "header signature is not 8BPS"));
    }
    let ghost n0 = issues@.len();
    if version != 1 && version != 2 {
        issues.push(issue(4, "error", "unsupported PSD version"));
    }
    let ghost n1 = issues@.len();
    let reserved_set = any_nonzero(reserved);
    assert(reserved_set == exists|i: int| 6 <= i < 12 && #[trigger] bytes@[i] != 0) by {
        if reserved_set {
            let i = choose|i: int| 0 <= i < reserved@.len() && #[trigger] reserved@[i] != 0;
            assert(reserved@[i] == bytes@[6 + i]);
        }
        if exists|i: int| 6 <= i < 12 && #[trigger] bytes@[i] != 0 {
            let i = choose|i: int| 6 <= i < 12 && #[trigger] bytes@[i] != 0;
            assert(reserved@[i - 6] == bytes@[i]);
        }
    }
    if reserved_set {
        issues.push(issue(6, "warning", "reserved header bytes are not zero"));
    }
    let mut sections: Vec<Block> = Vec::new();
    let color = length_block_u32(&mut cursor, "color_mode_data", 1)?;
    sections.push(color);
    let resources = length_block_u32(&mut cursor, "image_resources", 1)?;
    sections.push(resources);
    let layer_mask_start = cursor.absolute();
    let layer_mask_length: usize = if version == 2 {
        let raw = cursor.u64("layer and mask length")?;
        if raw <= usize::MAX as u64 { raw as usize } else { usize::MAX }
    } else {
        cursor.u32("layer and mask length")? as usize
    };
    let layer_mask_prefix: usize = if version == 2 { 8 } else { 4 };
    let layer_mask_data_start = cursor.absolute();
    let layer_mask_data = cursor.take(layer_mask_length, "layer and mask data")?;
    let composite_start = cursor.absolute();
    let empty: Vec<u8> = Vec::new();
    sections.push(block(
        "layer_and_mask",
        layer_mask_start,
        composite_start,
        layer_mask_length,
        layer_mask_length,
        1,
        empty.as_slice(),
        layer_mask_data,
        "parsed",
    ));
    let remaining = cursor.remaining();
    let composite_bytes = cursor.take(remaining, "composite image data")?;
    let compression: Option<u16> = if composite_bytes.len() >= 2 {
        Some((composite_bytes[0] as u16) * 256 + composite_bytes[1] as u16)
    } else {
        None
    };
    let per_sample: u64 = ((depth as u64) + 7) / 8;
    let expected = match (channels as u64).checked_mul(width as u64) {
        Some(area) => match area.checked_mul(height as u64) {
            Some(samples) => samples.checked_mul(per_sample),
            None => None,
        },
        None => None,
    };
    proof {
        assert((channels as int) * (width as int) <= 0xffff * 0xffff_ffff) by (nonlinear_arith)
            requires channels <= 0xffff, width <= 0xffff_ffff;
    }
    let (decoded_bytes, compressed_bytes_consumed, validation) =
        validate_composite(composite_bytes, compression, expected, version == 2, channels, height);
    let composite = AuditComposite {
        block: block(
            "composite_image_data",
            composite_start,
            bytes.len(),
            composite_bytes.len(),
            composite_bytes.len(),
            1,
            empty.as_slice(),
            composite_bytes,
            if compression.is_some() { "opaque" } else { "truncated" },
        ),
        compression,
        expected_decoded_bytes: expected,
        decoded_bytes,
        compressed_bytes_consumed,
        validation,
    };
    if layer_mask_start + layer_mask_prefix + layer_mask_length != composite_start {
        issues.push(issue(composite_start, "error", "top-level section coverage has a gap"));
    }
    Ok(AuditFraming {
        file_length: bytes.len(),
        sha256: digest(bytes),
        header,
        sections,
        layer_mask_data_start,
        composite,
        issues,
    })
}

} // verus!
