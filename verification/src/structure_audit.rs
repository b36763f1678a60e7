//! Building blocks of the PSD structure audit: an offset-reporting reader, wire-identity
//! renderings of byte ranges and the composite image framing check.
use vstd::prelude::*;

use crate::roundtrip::{be_u16_at, be_u32_at, be_u64_at};
use crate::text::collect_text;
use vstd::string::StringSliceAdditionalSpecFns;

verus! {

/// A bounded reader that reports offsets relative to the start of the whole file.
pub struct AuditCursor<'a> {
    data: &'a [u8],
    pos: usize,
    base: usize,
}

impl<'a> View for AuditCursor<'a> {
    /// The section's bytes, the read position and the section's offset in the file.
    type V = (Seq<u8>, int, int);

    closed spec fn view(&self) -> (Seq<u8>, int, int) {
        (self.data@, self.pos as int, self.base as int)
    }
}

/// Whether an additional-info signature (`8BIM` or `8B64`) starts at `at`.
pub open spec fn info_signature_at(data: Seq<u8>, at: int) -> bool {
    &&& 0 <= at
    &&& at + 4 <= data.len()
    &&& data[at] == 0x38 && data[at + 1] == 0x42
    &&& ((data[at + 2] == 0x49 && data[at + 3] == 0x4d) || (data[at + 2] == 0x36 && data[at + 3] == 0x34))
}

/// The first padding from `p` up to `limit` after which a signature starts, or zero.
pub open spec fn first_padding(data: Seq<u8>, pos: int, limit: int, p: int) -> int
    decreases limit + 1 - p,
{
    if p > limit || p < 0 {
        0
    } else if info_signature_at(data, pos + p) {
        p
    } else {
        first_padding(data, pos, limit, p + 1)
    }
}

impl<'a> AuditCursor<'a> {
    #[verifier::type_invariant]
    spec fn in_bounds(self) -> bool {
        &&& self.pos <= self.data@.len()
        &&& self.base + self.data@.len() <= usize::MAX
    }

    /// Creates a reader over a section that starts the file.
    pub fn new(data: &'a [u8]) -> (cursor: Self)
        ensures
            cursor@ == (data@, 0int, 0int),
    {
        let length = data.len();
        assert(data@.len() == length);
        AuditCursor { data, pos: 0, base: 0 }
    }

    /// Creates a reader over a section that starts at file offset `base`.
    pub fn with_base(data: &'a [u8], base: usize) -> (cursor: Self)
        requires
            base + data@.len() <= usize::MAX,
        ensures
            cursor@ == (data@, 0int, base as int),
    {
        AuditCursor { data, pos: 0, base }
    }

    /// The file offset of the read position.
    pub fn absolute(&self) -> (offset: usize)
        ensures
            offset == self@.2 + self@.1,
    {
        proof {
            use_type_invariant(self);
        }
        self.base + self.pos
    }

    /// The read position within the section.
    pub fn position(&self) -> (position: usize)
        ensures
            position == self@.1,
            self@.1 <= self@.0.len(),
            0 <= self@.2,
            self@.2 + self@.0.len() <= usize::MAX,
    {
        proof {
            use_type_invariant(self);
        }
        self.pos
    }

    /// The unread byte count.
    pub fn remaining(&self) -> (count: usize)
        ensures
            count == self@.0.len() - self@.1,
            self@.1 <= self@.0.len(),
    {
        proof {
            use_type_invariant(self);
        }
        self.data.len() - self.pos
    }

    /// How many padding bytes, at most `maximum`, stand before the next additional-info
    /// signature; zero when none follows within reach.
    pub fn padding_before_signature(&self, maximum: usize) -> (padding: usize)
        ensures
            padding == (if self@.0.len() - self@.1 == 0 {
                0
            } else {
                first_padding(self@.0, self@.1, if maximum <= self@.0.len() - self@.1 { maximum as int } else { self@.0.len() - self@.1 }, 0)
            }),
    {
        proof {
            use_type_invariant(self);
        }
        let remaining = self.data.len() - self.pos;
        if remaining == 0 {
            return 0;
        }
        let limit = if maximum <= remaining { maximum } else { remaining };
        let mut p: usize = 0;
        loop
            invariant
                self.pos + limit <= self.data@.len(),
                self.data@.len() <= usize::MAX,
                self.data@.len() == self.data.len(),
                remaining == self.data@.len() - self.pos,
                limit == (if maximum <= remaining { maximum } else { remaining }),
                p <= limit,
                first_padding(self.data@, self.pos as int, limit as int, 0) == first_padding(self.data@, self.pos as int, limit as int, p as int),
            decreases limit - p,
        {
            let at = self.pos + p;
            let found = at <= self.data.len() && self.data.len() - at >= 4 && self.data[at] == 0x38
                && self.data[at + 1] == 0x42 && ((self.data[at + 2] == 0x49 && self.data[at + 3] == 0x4d) || (
            self.data[at + 2] == 0x36 && self.data[at + 3] == 0x34));
            assert(found == info_signature_at(self.data@, at as int));
            if found {
                return p;
            }
            if p == limit {
                assert(first_padding(self.data@, self.pos as int, limit as int, limit + 1) == 0);
                return 0;
            }
            p = p + 1;
        }
    }

    /// Takes a checked byte range; errors name the file offset of the read position.
    pub fn take(&mut self, length: usize, label: &str) -> (taken: Result<&'a [u8], String>)
        ensures
            final(self)@.0 == old(self)@.0,
            final(self)@.2 == old(self)@.2,
            match taken {
                Ok(value) => old(self)@.1 + length <= old(self)@.0.len() && value@ == old(self)@.0.subrange(
                    old(self)@.1,
                    old(self)@.1 + length,
                ) && final(self)@.1 == old(self)@.1 + length,
                Err(message) => old(self)@.1 + length > old(self)@.0.len() && final(self)@ == old(self)@
                    && message@ == (if old(self)@.1 + length > usize::MAX {
                        label@ + " length overflow at 0x"@ + crate::text::lower_hex((old(self)@.2 + old(self)@.1) as nat)
                    } else {
                        "truncated "@ + label@ + " at 0x"@ + crate::text::lower_hex((old(self)@.2 + old(self)@.1) as nat) + ": need "@
                            + crate::text::decimal(length as int) + ", have "@ + crate::text::decimal(old(self)@.0.len() - old(self)@.1)
                    }),
            },
    {
        proof {
            use_type_invariant(&*self);
        }
        let absolute = self.base + self.pos;
        if length > usize::MAX - self.pos {
            return Err(overflow_message(label, absolute));
        }
        let end = self.pos + length;
        if end > self.data.len() {
            let remaining = self.data.len() - self.pos;
            return Err(truncation_message(label, absolute, length, remaining));
        }
        let value = &self.data[self.pos..end];
        self.pos = end;
        Ok(value)
    }

    /// Reads one byte.
    pub fn u8(&mut self, label: &str) -> (value: Result<u8, String>)
        ensures
            final(self)@.0 == old(self)@.0,
            final(self)@.2 == old(self)@.2,
            match value {
                Ok(v) => old(self)@.1 + 1 <= old(self)@.0.len() && v == old(self)@.0[old(self)@.1]
                    && final(self)@.1 == old(self)@.1 + 1,
                Err(_) => old(self)@.1 + 1 > old(self)@.0.len() && final(self)@ == old(self)@,
            },
    {
        let taken = self.take(1, label)?;
        Ok(taken[0])
    }

    /// Reads a big-endian unsigned 16-bit value.
    pub fn u16(&mut self, label: &str) -> (value: Result<u16, String>)
        ensures
            final(self)@.0 == old(self)@.0,
            final(self)@.2 == old(self)@.2,
            match value {
                Ok(v) => old(self)@.1 + 2 <= old(self)@.0.len() && v == be_u16_at(old(self)@.0, old(self)@.1)
                    && final(self)@.1 == old(self)@.1 + 2,
                Err(_) => old(self)@.1 + 2 > old(self)@.0.len() && final(self)@ == old(self)@,
            },
    {
        let taken = self.take(2, label)?;
        Ok((taken[0] as u16) * 256 + taken[1] as u16)
    }

    /// Reads a big-endian two's-complement 16-bit value.
    pub fn i16(&mut self, label: &str) -> (value: Result<i16, String>)
        ensures
            final(self)@.0 == old(self)@.0,
            final(self)@.2 == old(self)@.2,
            match value {
                Ok(v) => old(self)@.1 + 2 <= old(self)@.0.len() && v == (if be_u16_at(old(self)@.0, old(self)@.1) >= 32768 {
                    be_u16_at(old(self)@.0, old(self)@.1) - 65536
                } else {
                    be_u16_at(old(self)@.0, old(self)@.1)
                }) && final(self)@.1 == old(self)@.1 + 2,
                Err(_) => old(self)@.1 + 2 > old(self)@.0.len() && final(self)@ == old(self)@,
            },
    {
        let raw = self.u16(label)?;
        if raw >= 32768 {
            Ok((raw as i32 - 65536) as i16)
        } else {
            Ok(raw as i16)
        }
    }

    /// Reads a big-endian unsigned 32-bit value.
    pub fn u32(&mut self, label: &str) -> (value: Result<u32, String>)
        ensures
            final(self)@.0 == old(self)@.0,
            final(self)@.2 == old(self)@.2,
            match value {
                Ok(v) => old(self)@.1 + 4 <= old(self)@.0.len() && v == be_u32_at(old(self)@.0, old(self)@.1)
                    && final(self)@.1 == old(self)@.1 + 4,
                Err(_) => old(self)@.1 + 4 > old(self)@.0.len() && final(self)@ == old(self)@,
            },
    {
        let taken = self.take(4, label)?;
        Ok((taken[0] as u32) * 16777216 + (taken[1] as u32) * 65536 + (taken[2] as u32) * 256
            + taken[3] as u32)
    }

    /// Reads a big-endian two's-complement 32-bit value.
    pub fn i32(&mut self, label: &str) -> (value: Result<i32, String>)
        ensures
            final(self)@.0 == old(self)@.0,
            final(self)@.2 == old(self)@.2,
            match value {
                Ok(v) => old(self)@.1 + 4 <= old(self)@.0.len() && v == (if be_u32_at(old(self)@.0, old(self)@.1)
                    >= 2147483648 {
                    be_u32_at(old(self)@.0, old(self)@.1) - 4294967296
                } else {
                    be_u32_at(old(self)@.0, old(self)@.1)
                }) && final(self)@.1 == old(self)@.1 + 4,
                Err(_) => old(self)@.1 + 4 > old(self)@.0.len() && final(self)@ == old(self)@,
            },
    {
        let raw = self.u32(label)?;
        if raw >= 2147483648 {
            Ok((raw as i64 - 4294967296) as i32)
        } else {
            Ok(raw as i32)
        }
    }

    /// Reads a big-endian unsigned 64-bit value.
    pub fn u64(&mut self, label: &str) -> (value: Result<u64, String>)
        ensures
            final(self)@.0 == old(self)@.0,
            final(self)@.2 == old(self)@.2,
            match value {
                Ok(v) => old(self)@.1 + 8 <= old(self)@.0.len() && v == be_u64_at(old(self)@.0, old(self)@.1)
                    && final(self)@.1 == old(self)@.1 + 8,
                Err(_) => old(self)@.1 + 8 > old(self)@.0.len() && final(self)@ == old(self)@,
            },
    {
        let taken = self.take(8, label)?;
        let high = (taken[0] as u64) * 16777216 + (taken[1] as u64) * 65536 + (taken[2] as u64) * 256
            + taken[3] as u64;
        let low = (taken[4] as u64) * 16777216 + (taken[5] as u64) * 65536 + (taken[6] as u64) * 256
            + taken[7] as u64;
        assert(high <= u32::MAX);
        Ok(high * 4294967296 + low)
    }
}

#[verifier::external_body]
fn overflow_message(label: &str, absolute: usize) -> (message: String)
    ensures
        message@ == label@ + " length overflow at 0x"@ + crate::text::lower_hex(absolute as nat),
{
    format!("{label} length overflow at 0x{absolute:x}")
}

#[verifier::external_body]
fn truncation_message(label: &str, absolute: usize, length: usize, remaining: usize) -> (message: String)
    ensures
        message@ == "truncated "@ + label@ + " at 0x"@ + crate::text::lower_hex(absolute as nat) + ": need "@
            + crate::text::decimal(length as int) + ", have "@ + crate::text::decimal(remaining as int),
{
    format!("truncated {label} at 0x{absolute:x}: need {length}, have {remaining}")
}

/// The lowercase hexadecimal digit of a value below sixteen.
pub open spec fn hex_digit(value: int) -> char {
    if value < 10 { (48 + value) as char } else { (87 + value) as char }
}

/// Two lowercase hexadecimal digits for every byte.
pub open spec fn hex_text(bytes: Seq<u8>) -> Seq<char> {
    Seq::new(2 * bytes.len(), |i: int| if i % 2 == 0 { hex_digit((bytes[i / 2] / 16) as int) } else { hex_digit((bytes[i / 2] % 16) as int) })
}

/// A byte as readable text: printable ASCII and the space stand for themselves, every
/// other byte for a dot.
pub open spec fn readable_char(b: u8) -> char {
    if 0x20 <= b <= 0x7e { b as char } else { '.' }
}

fn hex_char(value: u8) -> (c: char)
    requires
        value < 16,
    ensures
        c == hex_digit(value as int),
{
    if value < 10 { (48 + value) as char } else { (87 + value) as char }
}

/// Renders bytes as lowercase hexadecimal, two digits per byte.
pub fn hex(bytes: &[u8]) -> (text: String)
    ensures
        text@ == hex_text(bytes@),
{
    let mut chars: Vec<char> = Vec::new();
    let mut i: usize = 0;
    while i < bytes.len()
        invariant
            i <= bytes@.len(),
            chars@ == hex_text(bytes@.take(i as int)),
        decreases bytes@.len() - i,
    {
        let b = bytes[i];
        chars.push(hex_char(b / 16));
        chars.push(hex_char(b % 16));
        assert(chars@ =~= hex_text(bytes@.take(i as int + 1)));
        i = i + 1;
    }
    assert(bytes@.take(bytes@.len() as int) == bytes@);
    collect_text(&chars)
}

/// Renders bytes as readable text, one character per byte.
pub fn ascii(bytes: &[u8]) -> (text: String)
    ensures
        text@ == bytes@.map_values(|b: u8| readable_char(b)),
{
    let mut chars: Vec<char> = Vec::new();
    let mut i: usize = 0;
    while i < bytes.len()
        invariant
            i <= bytes@.len(),
            chars@ == bytes@.take(i as int).map_values(|b: u8| readable_char(b)),
        decreases bytes@.len() - i,
    {
        let b = bytes[i];
        let c = if b >= 0x20 && b <= 0x7e { b as char } else { '.' };
        chars.push(c);
        assert(chars@ =~= bytes@.take(i as int + 1).map_values(|b: u8| readable_char(b)));
        i = i + 1;
    }
    assert(bytes@.take(bytes@.len() as int) == bytes@);
    collect_text(&chars)
}

/// The SHA-256 digest of a byte string.
pub uninterp spec fn sha256_of(bytes: Seq<u8>) -> Seq<u8>;

/// Computes the SHA-256 digest with `sha2::Sha256::digest`. The contract names the
/// digest of the bytes and states its documented size of 32 bytes.
#[verifier::external_body]
fn sha256(bytes: &[u8]) -> (digest: Vec<u8>)
    ensures
        digest@ == sha256_of(bytes@),
        digest@.len() == 32,
{
    <sha2::Sha256 as sha2::Digest>::digest(bytes).to_vec()
}

/// The SHA-256 digest of the bytes in lowercase hexadecimal.
pub fn digest(bytes: &[u8]) -> (text: String)
    ensures
        text@ == hex_text(sha256_of(bytes@)),
        text@.len() == 64,
{
    let d = sha256(bytes);
    hex(d.as_slice())
}

/// Whether a four-byte additional-info key belongs to the large-key set whose length field
/// is eight bytes wide in PSB.
pub open spec fn large_key(key: Seq<u8>) -> bool {
    key.len() == 4 && (key == seq![0x4cu8, 0x4d, 0x73, 0x6b] || key == seq![0x4cu8, 0x72, 0x31, 0x36]
        || key == seq![0x4cu8, 0x72, 0x33, 0x32] || key == seq![0x4cu8, 0x61, 0x79, 0x72]
        || key == seq![0x4du8, 0x74, 0x31, 0x36] || key == seq![0x4du8, 0x74, 0x33, 0x32]
        || key == seq![0x4du8, 0x74, 0x72, 0x6e] || key == seq![0x41u8, 0x6c, 0x70, 0x68]
        || key == seq![0x46u8, 0x4d, 0x73, 0x6b] || key == seq![0x6cu8, 0x6e, 0x6b, 0x32]
        || key == seq![0x46u8, 0x45, 0x69, 0x64] || key == seq![0x46u8, 0x58, 0x69, 0x64]
        || key == seq![0x50u8, 0x78, 0x53, 0x44])
}

fn key_is(key: &[u8], a: u8, b: u8, c: u8, d: u8) -> (matches: bool)
    ensures
        matches == (key@ == seq![a, b, c, d]),
{
    if key.len() != 4 {
        return false;
    }
    let result = key[0] == a && key[1] == b && key[2] == c && key[3] == d;
    proof {
        if result {
            assert(key@ =~= seq![a, b, c, d]);
        } else if key@ == seq![a, b, c, d] {
            assert(key@[0] == a && key@[1] == b && key@[2] == c && key@[3] == d);
        }
    }
    result
}

/// Whether an additional-info key (`LMsk`, `Lr16`, `Lr32`, `Layr`, `Mt16`, `Mt32`, `Mtrn`,
/// `Alph`, `FMsk`, `lnk2`, `FEid`, `FXid` or `PxSD`) carries an eight-byte length in PSB.
pub fn is_large_key(key: &str) -> (large: bool)
    ensures
        large == large_key(key.spec_bytes()),
{
    let k = key.as_bytes();
    key_is(k, 0x4c, 0x4d, 0x73, 0x6b) || key_is(k, 0x4c, 0x72, 0x31, 0x36) || key_is(k, 0x4c, 0x72, 0x33, 0x32)
        || key_is(k, 0x4c, 0x61, 0x79, 0x72) || key_is(k, 0x4d, 0x74, 0x31, 0x36) || key_is(k, 0x4d, 0x74, 0x33, 0x32)
        || key_is(k, 0x4d, 0x74, 0x72, 0x6e) || key_is(k, 0x41, 0x6c, 0x70, 0x68) || key_is(k, 0x46, 0x4d, 0x73, 0x6b)
        || key_is(k, 0x6c, 0x6e, 0x6b, 0x32) || key_is(k, 0x46, 0x45, 0x69, 0x64) || key_is(k, 0x46, 0x58, 0x69, 0x64)
        || key_is(k, 0x50, 0x78, 0x53, 0x44)
}

/// Whether `data` starts with `prefix`.
pub open spec fn has_prefix(data: Seq<u8>, prefix: Seq<u8>) -> bool {
    prefix.len() <= data.len() && data.take(prefix.len() as int) == prefix
}

fn starts_with(data: &[u8], prefix: &[u8]) -> (result: bool)
    ensures
        result == has_prefix(data@, prefix@),
{
    if prefix.len() > data.len() {
        return false;
    }
    let mut i: usize = 0;
    while i < prefix.len()
        invariant
            prefix@.len() <= data@.len(),
            i <= prefix@.len(),
            forall|j: int| 0 <= j < i ==> data@[j] == prefix@[j],
        decreases prefix@.len() - i,
    {
        if data[i] != prefix[i] {
            assert(data@.take(prefix@.len() as int)[i as int] != prefix@[i as int]);
            return false;
        }
        i = i + 1;
    }
    assert(data@.take(prefix@.len() as int) =~= prefix@);
    true
}

/// The class of an image resource: the animation and timeline plugin payloads by their
/// magic, other plugin IDs as opaque plugins, the rest as standard or opaque.
pub open spec fn resource_class(id: u16, payload: Seq<u8>) -> Seq<char> {
    if has_prefix(payload, seq![0x6du8, 0x61, 0x6e, 0x69, 0x49, 0x52, 0x46, 0x52]) {
        "maniIRFR"@
    } else if has_prefix(payload, seq![0x6du8, 0x6f, 0x70, 0x74]) {
        "mopt"@
    } else if has_prefix(payload, seq![0x6du8, 0x73, 0x65, 0x74]) {
        "mset"@
    } else if has_prefix(payload, seq![0x6du8, 0x73, 0x34, 0x77]) {
        "ms4w"@
    } else if has_prefix(payload, seq![0x6du8, 0x66, 0x72, 0x69]) {
        "mfri"@
    } else if 4000 <= id <= 4999 {
        "opaque_plugin"@
    } else {
        "standard_or_opaque"@
    }
}

/// Classifies an image resource by its payload magic and ID.
pub fn classify_resource(id: u16, payload: &[u8]) -> (class: String)
    ensures
        class@ == resource_class(id, payload@),
{
    let mani: [u8; 8] = [0x6d, 0x61, 0x6e, 0x69, 0x49, 0x52, 0x46, 0x52];
    let mopt: [u8; 4] = [0x6d, 0x6f, 0x70, 0x74];
    let mset: [u8; 4] = [0x6d, 0x73, 0x65, 0x74];
    let ms4w: [u8; 4] = [0x6d, 0x73, 0x34, 0x77];
    let mfri: [u8; 4] = [0x6d, 0x66, 0x72, 0x69];
    assert(mani@ == seq![0x6du8, 0x61, 0x6e, 0x69, 0x49, 0x52, 0x46, 0x52]);
    assert(mopt@ == seq![0x6du8, 0x6f, 0x70, 0x74]);
    assert(mset@ == seq![0x6du8, 0x73, 0x65, 0x74]);
    assert(ms4w@ == seq![0x6du8, 0x73, 0x34, 0x77]);
    assert(mfri@ == seq![0x6du8, 0x66, 0x72, 0x69]);
    if starts_with(payload, mani.as_slice()) {
        "maniIRFR".to_owned()
    } else if starts_with(payload, mopt.as_slice()) {
        "mopt".to_owned()
    } else if starts_with(payload, mset.as_slice()) {
        "mset".to_owned()
    } else if starts_with(payload, ms4w.as_slice()) {
        "ms4w".to_owned()
    } else if starts_with(payload, mfri.as_slice()) {
        "mfri".to_owned()
    } else if id >= 4000 && id <= 4999 {
        "opaque_plugin".to_owned()
    } else {
        "standard_or_opaque".to_owned()
    }
}

/// One audit finding.
#[derive(Debug, Clone, PartialEq, Eq)]
pub struct Issue {
    /// File offset the finding refers to.
    pub offset: usize,
    /// `warning` or `error`.
    pub severity: String,
    /// What was found.
    pub message: String,
}

/// Records one audit finding.
pub fn issue(offset: usize, severity: &str, message: &str) -> (found: Issue)
    ensures
        found.offset == offset,
        found.severity@ == severity@,
        found.message@ == message@,
{
    Issue { offset, severity: severity.to_owned(), message: message.to_owned() }
}

/// The wire identity of one byte range of the file.
#[derive(Debug, Clone, PartialEq, Eq)]
pub struct Block {
    /// What the range holds.
    pub kind: String,
    /// File offset of the first byte.
    pub start: usize,
    /// File offset after the last byte.
    pub end: usize,
    /// The length the file declared.
    pub declared_length: usize,
    /// The length the audit consumed.
    pub consumed_length: usize,
    /// The alignment the format asks for.
    pub alignment: usize,
    /// The padding bytes, in hexadecimal.
    pub padding_hex: String,
    /// The SHA-256 digest of the payload, in hexadecimal.
    pub sha256: String,
    /// The first 32 payload bytes, in hexadecimal.
    pub preview_hex: String,
    /// How the audit treated the range.
    pub status: String,
}

/// Describes one byte range: its bounds and lengths, its padding and a digest and preview
/// of its payload.
pub fn block(
    kind: &str,
    start: usize,
    end: usize,
    declared_length: usize,
    consumed_length: usize,
    alignment: usize,
    padding: &[u8],
    payload: &[u8],
    status: &str,
) -> (described: Block)
    ensures
        described.kind@ == kind@,
        described.start == start,
        described.end == end,
        described.declared_length == declared_length,
        described.consumed_length == consumed_length,
        described.alignment == alignment,
        described.padding_hex@ == hex_text(padding@),
        described.sha256@ == hex_text(sha256_of(payload@)),
        described.preview_hex@ == hex_text(payload@.take(if payload@.len() <= 32 { payload@.len() as int } else { 32 })),
        described.status@ == status@,
{
    let preview_length = if payload.len() <= 32 { payload.len() } else { 32 };
    let preview = &payload[0..preview_length];
    assert(preview@ == payload@.take(preview_length as int));
    Block {
        kind: kind.to_owned(),
        start,
        end,
        declared_length,
        consumed_length,
        alignment,
        padding_hex: hex(padding),
        sha256: digest(payload),
        preview_hex: hex(preview),
        status: status.to_owned(),
    }
}

/// The number of values among the first `n` that repeat an earlier value.
pub open spec fn repeats(values: Seq<i64>, n: int) -> nat
    decreases n,
{
    if n <= 0 || n > values.len() {
        0
    } else {
        repeats(values, n - 1) + if exists|j: int| 0 <= j < n - 1 && #[trigger] values[j] == values[n - 1] { 1nat } else { 0nat }
    }
}

#[verifier::external_body]
fn duplicate_message(kind: &str, value: i64) -> (message: String)
    ensures
        message@ == "duplicate "@ + kind@ + " ID "@ + crate::text::decimal(value as int),
{
    format!("duplicate {kind} ID {value}")
}

/// Adds one finding for every value that repeats an earlier one.
pub fn push_duplicates(kind: &str, values: &Vec<i64>, findings: &mut Vec<String>)
    ensures
        final(findings)@.len() == old(findings)@.len() + repeats(values@, values@.len() as int),
        final(findings)@.take(old(findings)@.len() as int) == old(findings)@,
{
    let mut i: usize = 0;
    while i < values.len()
        invariant
            i <= values@.len(),
            findings@.len() == old(findings)@.len() + repeats(values@, i as int),
            findings@.take(old(findings)@.len() as int) == old(findings)@,
        decreases values@.len() - i,
    {
        let mut seen = false;
        let mut j: usize = 0;
        while j < i
            invariant
                i < values@.len(),
                j <= i,
                seen == exists|q: int| 0 <= q < j && #[trigger] values@[q] == values@[i as int],
            decreases i - j,
        {
            if values[j] == values[i] {
                seen = true;
            }
            j = j + 1;
        }
        if seen {
            let ghost before = findings@;
            findings.push(duplicate_message(kind, values[i]));
            assert(findings@.take(old(findings)@.len() as int) == before.take(old(findings)@.len() as int));
        }
        i = i + 1;
    }
}

/// What decoding a zlib stream yields: the decoded bytes where the stream decodes, and how
/// many input bytes the decoder consumed.
pub uninterp spec fn zlib_decode(payload: Seq<u8>) -> (Option<Seq<u8>>, int);

/// Decodes one zlib stream with `flate2::read::ZlibDecoder` (`read_to_end`, then
/// `total_in`). The contract names the outcome and the consumed count, which depend on the
/// payload alone; the error text is not stated.
#[verifier::external_body]
fn inflate_zlib(payload: &[u8]) -> (outcome: (Result<Vec<u8>, String>, u64))
    ensures
        match outcome.0 {
            Ok(decoded) => zlib_decode(payload@).0 == Some(decoded@),
            Err(_) => zlib_decode(payload@).0 is None,
        },
        outcome.1 == zlib_decode(payload@).1,
{
    let mut decoder = flate2::read::ZlibDecoder::new(payload);
    let mut decoded = Vec::new();
    let result = std::io::Read::read_to_end(&mut decoder, &mut decoded);
    let consumed = decoder.total_in();
    match result {
        Ok(_) => (Ok(decoded), consumed),
        Err(error) => (Err(error.to_string()), consumed),
    }
}

#[verifier::external_body]
fn zlib_error_message(error: &str) -> (message: String)
    ensures
        message@ == "zlib error: "@ + error@,
{
    format!("zlib error: {error}")
}

#[verifier::external_body]
fn unknown_compression_message(compression: u16) -> (message: String)
    ensures
        message@ == "unknown compression "@ + crate::text::decimal(compression as int),
{
    format!("unknown compression {compression}")
}

/// The declared length of RLE row `i`: four bytes in PSB, two in PSD.
pub open spec fn rle_row_length(payload: Seq<u8>, psb: bool, i: int) -> int {
    if psb { be_u32_at(payload, i * 4) } else { be_u16_at(payload, i * 2) }
}

/// The sum of the declared lengths of the first `n` RLE rows.
pub open spec fn rle_total(payload: Seq<u8>, psb: bool, n: int) -> int
    decreases n,
{
    if n <= 0 { 0 } else { rle_total(payload, psb, n - 1) + rle_row_length(payload, psb, n - 1) }
}

/// A product that stops at the largest address.
pub open spec fn saturating_product(a: int, b: int) -> int {
    if a * b > usize::MAX { usize::MAX as int } else { a * b }
}

/// The framing check of a composite image section: the decoded length, the consumed length
/// and a verdict, for raw, RLE and zlib-compressed data.
pub open spec fn composite_verdict(data: Seq<u8>, compression: Option<u16>, expected: Option<u64>, psb: bool, channels: u16, height: u32) -> (Option<int>, Option<int>, Seq<char>) {
    match compression {
        None => (None, None, "truncated compression field"@),
        Some(c) => {
            let payload = data.skip(2);
            if c == 0 {
                (Some(payload.len() as int), Some(payload.len() as int), if expected == Some(payload.len() as u64) { "valid raw"@ } else { "raw length mismatch"@ })
            } else if c == 1 {
                let rows = saturating_product(channels as int, height as int);
                let width: int = if psb { 4 } else { 2 };
                let table = saturating_product(rows, width);
                if payload.len() < table {
                    (None, None, "truncated RLE row table"@)
                } else {
                    let encoded = rle_total(payload, psb, rows);
                    let consumed = if encoded <= usize::MAX && table + encoded <= usize::MAX { Some(table + encoded) } else { None };
                    (match expected { Some(e) => if e <= usize::MAX { Some(e as int) } else { None }, None => None },
                        consumed,
                        if consumed == Some(payload.len() as int) { "valid RLE framing"@ } else { "RLE framing mismatch"@ })
                }
            } else if c == 2 || c == 3 {
                let (decoded, consumed) = zlib_decode(payload);
                match decoded {
                    Some(d) => (Some(d.len() as int), Some(consumed as usize as int),
                        if expected == Some(d.len() as u64) && consumed as usize == payload.len() { "valid single zlib stream"@ } else { "zlib length or trailing-data mismatch"@ }),
                    None => (None, Some(consumed as usize as int), seq![]),
                }
            } else {
                (None, None, seq![])
            }
        },
    }
}

/// Checks the framing of a composite image section. The verdict of a zlib error and of an
/// unknown compression carries the decoder's or the compression's text.
pub fn validate_composite(data: &[u8], compression: Option<u16>, expected: Option<u64>, is_psb: bool, channels: u16, height: u32) -> (verdict: (Option<usize>, Option<usize>, String))
    requires
        compression is Some ==> data@.len() >= 2,
        data@.len() <= isize::MAX,
    ensures
        ({
            let spec = composite_verdict(data@, compression, expected, is_psb, channels, height);
            &&& spec.0 == match verdict.0 { Some(v) => Some(v as int), None => None }
            &&& spec.1 == match verdict.1 { Some(v) => Some(v as int), None => None }
            &&& spec.2.len() > 0 ==> verdict.2@ == spec.2
        }),
{
    let c = match compression {
        None => {
            return (None, None, "truncated compression field".to_owned());
        },
        Some(c) => c,
    };
    let payload = &data[2..data.len()];
    assert(payload@ == data@.skip(2));
    if c == 0 {
        let valid = match expected {
            Some(e) => e == payload.len() as u64,
            None => false,
        };
        return (Some(payload.len()), Some(payload.len()), if valid { "valid raw".to_owned() } else { "raw length mismatch".to_owned() });
    }
    if c == 1 {
        let wide_channels = channels as u64;
        let wide_height = height as u64;
        assert(wide_channels * wide_height <= 281470681677825) by (nonlinear_arith)
            requires
                wide_channels <= 65535,
                wide_height <= 4294967295,
        ;
        let product: u64 = wide_channels * wide_height;
        let rows: usize = if product > usize::MAX as u64 { usize::MAX } else { product as usize };
        let width: usize = if is_psb { 4 } else { 2 };
        let table: usize = if rows > usize::MAX / width { usize::MAX } else { rows * width };
        assert(table == saturating_product(rows as int, width as int)) by (nonlinear_arith)
            requires
                width == 2 || width == 4,
                table == (if rows > usize::MAX / width { usize::MAX as int } else { rows * width }),
        ;
        if payload.len() < table {
            return (None, None, "truncated RLE row table".to_owned());
        }
        assert(table == rows * width) by (nonlinear_arith)
            requires
                width == 2 || width == 4,
                table <= isize::MAX,
                table == saturating_product(rows as int, width as int),
        ;
        let mut sum: Option<usize> = Some(0);
        let mut row: usize = 0;
        while row < rows
            invariant
                row <= rows,
                table == saturating_product(rows as int, width as int),
                table == rows * width,
                width == (if is_psb { 4usize } else { 2usize }),
                payload@.len() >= table,
                match sum { Some(v) => v == rle_total(payload@, is_psb, row as int) && v <= usize::MAX, None => rle_total(payload@, is_psb, row as int) > usize::MAX },
            decreases rows - row,
        {
            assert(row * width + width <= table) by (nonlinear_arith)
                requires
                    row < rows,
                    table == rows * width,
                    width == 2 || width == 4,
            ;
            let offset = row * width;
            let length: usize = if is_psb {
                ((payload[offset] as u32) * 16777216 + (payload[offset + 1] as u32) * 65536 + (payload[offset + 2] as u32) * 256 + payload[offset + 3] as u32) as usize
            } else {
                ((payload[offset] as u16) * 256 + payload[offset + 1] as u16) as usize
            };
            assert(length == rle_row_length(payload@, is_psb, row as int));
            proof {
                lemma_rle_total_monotone(payload@, is_psb, row as int);
            }
            sum = match sum {
                Some(v) => if length > usize::MAX - v { None } else { Some(v + length) },
                None => None,
            };
            row = row + 1;
        }
        let consumed = match sum {
            Some(v) => if v > usize::MAX - table { None } else { Some(table + v) },
            None => None,
        };
        let valid = match consumed {
            Some(v) => v == payload.len(),
            None => false,
        };
        let declared = match expected {
            Some(e) => if e <= usize::MAX as u64 { Some(e as usize) } else { None },
            None => None,
        };
        return (declared, consumed, if valid { "valid RLE framing".to_owned() } else { "RLE framing mismatch".to_owned() });
    }
    if c == 2 || c == 3 {
        let (outcome, consumed) = inflate_zlib(payload);
        return match outcome {
            Ok(decoded) => {
                let valid = match expected {
                    Some(e) => e == decoded.len() as u64,
                    None => false,
                } && consumed as usize == payload.len();
                (Some(decoded.len()), Some(consumed as usize), if valid { "valid single zlib stream".to_owned() } else { "zlib length or trailing-data mismatch".to_owned() })
            },
            Err(error) => (None, Some(consumed as usize), zlib_error_message(error.as_str())),
        };
    }
    (None, None, unknown_compression_message(c))
}

proof fn lemma_rle_total_monotone(payload: Seq<u8>, psb: bool, n: int)
    ensures
        rle_total(payload, psb, n) >= 0,
        rle_total(payload, psb, n + 1) >= rle_total(payload, psb, n),
    decreases n,
{
    if n > 0 {
        lemma_rle_total_monotone(payload, psb, n - 1);
    }
    let i = n;
    if psb {
        assert(be_u32_at(payload, i * 4) >= 0) by (nonlinear_arith);
    } else {
        assert(be_u16_at(payload, i * 2) >= 0) by (nonlinear_arith);
    }
}

} // verus!
