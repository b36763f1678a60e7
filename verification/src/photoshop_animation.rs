//! Photoshop frame-animation metadata scanning and normalization.
//!
//! This module owns the PSD compatibility boundary. Its public structures hold plain
//! values only, so the Aseprite and reverse-PSD writers can consume the same normalized
//! animation model. Descriptor payloads are handed out as bytes for the descriptor
//! reader.
use vstd::prelude::*;

use crate::roundtrip::{be_u16_at, be_u32_at};

verus! {

/// A layer identity supplied by the base PSD probe.
#[derive(Debug, Clone, PartialEq, Eq)]
pub struct AnimationLayerInput {
    /// Stable Photoshop layer identifier from the lyid additional-info key.
    pub id: u32,
    /// Normalized tree path, such as 0/2/1.
    pub path: String,
    /// Whether this node is a Photoshop group.
    pub is_group: bool,
    /// Whether this group only contains child groups and acts as an animation container.
    pub is_container_group: bool,
    /// Base hidden state before frame overrides are applied.
    pub hidden: bool,
    /// Ancestor group IDs in root-to-parent order.
    pub ancestor_ids: Vec<u32>,
}

/// A normalized Photoshop frame record.
#[derive(Debug, Clone, PartialEq, Eq)]
pub struct PhotoshopFrame {
    /// Photoshop frame identifier.
    pub id: u32,
    /// Frame duration in milliseconds.
    pub duration_ms: u32,
    /// Disposal policy as authored by Photoshop, if present.
    pub dispose: Option<String>,
}

/// A normalized loop policy.
#[derive(Debug, Clone, Copy, PartialEq, Eq, Structural)]
pub enum LoopMode {
    /// Repeat forever (LCnt == 0).
    Infinite,
    /// Repeat the authored finite count.
    Finite(u32),
}

/// A normalized frame-specific visible pixel-layer list.
#[derive(Debug, Clone, PartialEq, Eq)]
pub struct VisibleFrameLayers {
    /// Frame identifier.
    pub frame_id: u32,
    /// Visible pixel-layer IDs after ancestor group visibility is applied.
    pub layer_ids: Vec<u32>,
}

/// Normalized mdyn flags.
#[derive(Debug, Clone, Copy, PartialEq, Eq, Structural)]
pub struct AnimationFlags {
    /// Whether frame one propagates to later frames.
    pub propagate_frame_one: bool,
    /// Whether layer positions are unified.
    pub unify_layer_position: bool,
    /// Whether layer styles are unified.
    pub unify_layer_style: bool,
    /// Whether layer visibility is unified.
    pub unify_layer_visibility: bool,
}

/// Errors raised while scanning Photoshop animation metadata.
#[derive(Debug, Clone, PartialEq, Eq)]
pub enum AnimationParseError {
    /// The PSD structure ended before a bounded field was complete.
    Truncated { section: String, offset: usize },
    /// A PSD section declared an invalid size.
    InvalidSection { section: String, offset: usize },
    /// A required PSD signature was not present.
    InvalidSignature { expected: String, offset: usize },
    /// A descriptor or layer record was malformed.
    InvalidData(String),
    /// A layer ID was absent where strict association requires it.
    MissingLayerId { path: String },
    /// A layer or frame identifier occurred more than once.
    DuplicateId { kind: String, id: u32 },
    /// The metadata references a layer not present in the normalized tree.
    UnknownLayerId(u32),
}

/// A bounded reader over one PSD section.
#[derive(Debug, Clone, Copy)]
pub struct Cursor<'a> {
    bytes: &'a [u8],
    position: usize,
}

impl<'a> View for Cursor<'a> {
    /// The section's bytes and the read position.
    type V = (Seq<u8>, int);

    closed spec fn view(&self) -> (Seq<u8>, int) {
        (self.bytes@, self.position as int)
    }
}

/// Whether a read position lies within its section.
pub open spec fn cursor_wf(c: (Seq<u8>, int)) -> bool {
    0 <= c.1 <= c.0.len() <= usize::MAX
}

/// The error a cursor reports for a range that does not fit its section.
pub open spec fn range_error(c: (Seq<u8>, int), length: int, section: Seq<char>, e: AnimationParseError) -> bool {
    if c.1 + length > usize::MAX {
        e matches AnimationParseError::InvalidSection { section: s, offset } && s@ == section
            && offset == c.1
    } else {
        e matches AnimationParseError::Truncated { section: s, offset } && s@ == section && offset
            == c.1
    }
}

impl<'a> Cursor<'a> {
    #[verifier::type_invariant]
    spec fn position_in_bounds(self) -> bool {
        self.position <= self.bytes@.len() <= usize::MAX
    }

    /// Creates a cursor bounded to one PSD section.
    pub fn new(bytes: &'a [u8]) -> (cursor: Self)
        ensures
            cursor@ == (bytes@, 0int),
            cursor_wf(cursor@),
    {
        let length = bytes.len();
        assert(bytes@.len() == length);
        Cursor { bytes, position: 0 }
    }

    /// The read position always lies within the section.
    pub fn check_bounds(&self)
        ensures
            cursor_wf(self@),
    {
        proof {
            use_type_invariant(self);
        }
    }

    /// Returns the unread byte count.
    pub fn remaining(&self) -> (count: usize)
        ensures
            count == self@.0.len() - self@.1,
            cursor_wf(self@),
    {
        proof {
            use_type_invariant(self);
        }
        self.bytes.len() - self.position
    }

    /// Returns the current section-relative offset.
    pub fn offset(&self) -> (offset: usize)
        ensures
            offset == self@.1,
    {
        self.position
    }

    /// Takes a checked byte range from this section.
    pub fn take(&mut self, length: usize, section: &str) -> (taken: Result<&'a [u8], AnimationParseError>)
        ensures
            cursor_wf(final(self)@),
            final(self)@.0 == old(self)@.0,
            match taken {
                Ok(value) => old(self)@.1 + length <= old(self)@.0.len() && value@ == old(self)@.0.subrange(
                    old(self)@.1,
                    old(self)@.1 + length,
                ) && final(self)@.1 == old(self)@.1 + length,
                Err(e) => old(self)@.1 + length > old(self)@.0.len() && final(self)@ == old(self)@
                    && range_error(old(self)@, length as int, section@, e),
            },
    {
        proof {
            use_type_invariant(&*self);
        }
        if length > usize::MAX - self.position {
            return Err(AnimationParseError::InvalidSection {
                section: section.to_owned(),
                offset: self.position,
            });
        }
        let end = self.position + length;
        if end > self.bytes.len() {
            return Err(AnimationParseError::Truncated { section: section.to_owned(), offset: self.position });
        }
        let value = &self.bytes[self.position..end];
        self.position = end;
        Ok(value)
    }

    /// Advances over a checked byte range.
    pub fn skip(&mut self, length: usize, section: &str) -> (skipped: Result<(), AnimationParseError>)
        ensures
            cursor_wf(final(self)@),
            final(self)@.0 == old(self)@.0,
            match skipped {
                Ok(()) => old(self)@.1 + length <= old(self)@.0.len() && final(self)@.1 == old(self)@.1
                    + length,
                Err(e) => old(self)@.1 + length > old(self)@.0.len() && final(self)@ == old(self)@
                    && range_error(old(self)@, length as int, section@, e),
            },
    {
        match self.take(length, section) {
            Ok(_) => Ok(()),
            Err(e) => Err(e),
        }
    }

    /// Peeks at a checked byte range without advancing.
    pub fn peek_bytes(&self, length: usize) -> (peeked: Result<&'a [u8], AnimationParseError>)
        ensures
            match peeked {
                Ok(value) => self@.1 + length <= self@.0.len() && value@ == self@.0.subrange(
                    self@.1,
                    self@.1 + length,
                ),
                Err(e) => self@.1 + length > self@.0.len() && range_error(self@, length as int, "peek"@, e),
            },
    {
        proof {
            use_type_invariant(self);
        }
        if length > usize::MAX - self.position {
            return Err(AnimationParseError::InvalidSection { section: "peek".to_owned(), offset: self.position });
        }
        let end = self.position + length;
        if end > self.bytes.len() {
            return Err(AnimationParseError::Truncated { section: "peek".to_owned(), offset: self.position });
        }
        Ok(&self.bytes[self.position..end])
    }

    /// Checks and consumes an exact signature.
    pub fn expect_bytes(&mut self, expected: &[u8], section: &str) -> (checked: Result<(), AnimationParseError>)
        ensures
            cursor_wf(final(self)@),
            final(self)@.0 == old(self)@.0,
            match checked {
                Ok(()) => old(self)@.1 + expected@.len() <= old(self)@.0.len() && old(self)@.0.subrange(
                    old(self)@.1,
                    old(self)@.1 + expected@.len(),
                ) == expected@ && final(self)@.1 == old(self)@.1 + expected@.len(),
                Err(e) => if old(self)@.1 + expected@.len() > old(self)@.0.len() {
                    final(self)@ == old(self)@ && range_error(old(self)@, expected@.len() as int, section@, e)
                } else {
                    &&& old(self)@.0.subrange(old(self)@.1, old(self)@.1 + expected@.len()) != expected@
                    &&& final(self)@.1 == old(self)@.1 + expected@.len()
                    &&& e matches AnimationParseError::InvalidSignature { expected: text, offset }
                    &&& offset == old(self)@.1
                    &&& text@ == lossy_utf8(expected@)
                    &&& (is_ascii_bytes(expected@) ==> text@ == ascii_text(expected@))
                },
            },
    {
        let offset = self.position;
        let taken = self.take(expected.len(), section)?;
        if !bytes_equal(taken, expected) {
            return Err(AnimationParseError::InvalidSignature { expected: lossy_text(expected), offset });
        }
        Ok(())
    }

    /// Reads a bounded byte.
    pub fn u8(&mut self, section: &str) -> (value: Result<u8, AnimationParseError>)
        ensures
            cursor_wf(final(self)@),
            final(self)@.0 == old(self)@.0,
            match value {
                Ok(v) => old(self)@.1 + 1 <= old(self)@.0.len() && v == old(self)@.0[old(self)@.1]
                    && final(self)@.1 == old(self)@.1 + 1,
                Err(e) => old(self)@.1 + 1 > old(self)@.0.len() && final(self)@ == old(self)@
                    && range_error(old(self)@, 1, section@, e),
            },
    {
        let taken = self.take(1, section)?;
        Ok(taken[0])
    }

    /// Reads a bounded big-endian unsigned 16-bit value.
    pub fn u16(&mut self, section: &str) -> (value: Result<u16, AnimationParseError>)
        ensures
            cursor_wf(final(self)@),
            final(self)@.0 == old(self)@.0,
            match value {
                Ok(v) => old(self)@.1 + 2 <= old(self)@.0.len() && v == be_u16_at(old(self)@.0, old(self)@.1)
                    && final(self)@.1 == old(self)@.1 + 2,
                Err(e) => old(self)@.1 + 2 > old(self)@.0.len() && final(self)@ == old(self)@
                    && range_error(old(self)@, 2, section@, e),
            },
    {
        let taken = self.take(2, section)?;
        Ok((taken[0] as u16) * 256 + taken[1] as u16)
    }

    /// Reads a bounded big-endian signed 16-bit value.
    pub fn i16(&mut self, section: &str) -> (value: Result<i16, AnimationParseError>)
        ensures
            cursor_wf(final(self)@),
            final(self)@.0 == old(self)@.0,
            match value {
                Ok(v) => old(self)@.1 + 2 <= old(self)@.0.len() && v == (if be_u16_at(old(self)@.0, old(self)@.1) >= 32768 {
                    be_u16_at(old(self)@.0, old(self)@.1) - 65536
                } else {
                    be_u16_at(old(self)@.0, old(self)@.1)
                }) && final(self)@.1 == old(self)@.1 + 2,
                Err(e) => old(self)@.1 + 2 > old(self)@.0.len() && final(self)@ == old(self)@
                    && range_error(old(self)@, 2, section@, e),
            },
    {
        let raw = self.u16(section)?;
        if raw >= 32768 {
            Ok((raw as i32 - 65536) as i16)
        } else {
            Ok(raw as i16)
        }
    }

    /// Reads a bounded big-endian unsigned 32-bit value.
    pub fn u32(&mut self, section: &str) -> (value: Result<u32, AnimationParseError>)
        ensures
            cursor_wf(final(self)@),
            final(self)@.0 == old(self)@.0,
            match value {
                Ok(v) => old(self)@.1 + 4 <= old(self)@.0.len() && v == be_u32_at(old(self)@.0, old(self)@.1)
                    && final(self)@.1 == old(self)@.1 + 4,
                Err(e) => old(self)@.1 + 4 > old(self)@.0.len() && final(self)@ == old(self)@
                    && range_error(old(self)@, 4, section@, e),
            },
    {
        let taken = self.take(4, section)?;
        Ok((taken[0] as u32) * 16777216 + (taken[1] as u32) * 65536 + (taken[2] as u32) * 256
            + taken[3] as u32)
    }
}

/// Whether every byte is ASCII.
pub open spec fn is_ascii_bytes(bytes: Seq<u8>) -> bool {
    forall|i: int| 0 <= i < bytes.len() ==> #[trigger] bytes[i] < 128
}

/// The characters that ASCII bytes spell.
pub open spec fn ascii_text(bytes: Seq<u8>) -> Seq<char> {
    bytes.map_values(|b: u8| b as char)
}

/// Whether two byte slices hold the same bytes.
fn bytes_equal(left: &[u8], right: &[u8]) -> (equal: bool)
    ensures
        equal == (left@ == right@),
{
    if left.len() != right.len() {
        return false;
    }
    let mut i: usize = 0;
    while i < left.len()
        invariant
            left@.len() == right@.len(),
            i <= left@.len(),
            forall|j: int| 0 <= j < i ==> left@[j] == right@[j],
        decreases left@.len() - i,
    {
        if left[i] != right[i] {
            return false;
        }
        i = i + 1;
    }
    assert(left@ =~= right@);
    true
}

/// The characters `String::from_utf8_lossy` decodes from a byte string, invalid sequences
/// replaced; a function of the bytes alone.
pub uninterp spec fn lossy_utf8(bytes: Seq<u8>) -> Seq<char>;

/// The text of a byte string, with invalid UTF-8 replaced (`String::from_utf8_lossy`).
/// The contract names the decoded characters, and states that ASCII bytes become the
/// characters with the same codes, as the documentation does for valid UTF-8 input; the
/// decoding of other bytes is left unsaid.
#[verifier::external_body]
fn lossy_text(bytes: &[u8]) -> (text: String)
    ensures
        text@ == lossy_utf8(bytes@),
        is_ascii_bytes(bytes@) ==> text@ == ascii_text(bytes@),
{
    String::from_utf8_lossy(bytes).into_owned()
}

/// Whether the input layer at `i` is the first with a missing or repeated ID.
pub open spec fn input_layer_invalid(layers: Seq<AnimationLayerInput>, i: int) -> bool {
    layers[i].id == 0 || exists|j: int| 0 <= j < i && #[trigger] layers[j].id == layers[i].id
}

/// Validates the normalized layer identity set before strict association: every ID is
/// present and unique. The first layer that breaks this is reported.
pub fn validate_input_layers(layers: &Vec<AnimationLayerInput>) -> (checked: Result<(), AnimationParseError>)
    ensures
        match checked {
            Ok(()) => forall|i: int| 0 <= i < layers@.len() ==> !input_layer_invalid(layers@, i),
            Err(e) => exists|i: int| {
                &&& 0 <= i < layers@.len()
                &&& #[trigger] input_layer_invalid(layers@, i)
                &&& forall|k: int| 0 <= k < i ==> !input_layer_invalid(layers@, k)
                &&& if layers@[i].id == 0 {
                    e matches AnimationParseError::MissingLayerId { path } && path@ == layers@[i].path@
                } else {
                    e matches AnimationParseError::DuplicateId { kind, id } && kind@ == "input layer"@
                        && id == layers@[i].id
                }
            },
        },
{
    let mut i: usize = 0;
    while i < layers.len()
        invariant
            i <= layers@.len(),
            forall|k: int| 0 <= k < i ==> !input_layer_invalid(layers@, k),
        decreases layers@.len() - i,
    {
        let id = layers[i].id;
        if id == 0 {
            let path = layers[i].path.clone();
            assert(input_layer_invalid(layers@, i as int));
            return Err(AnimationParseError::MissingLayerId { path });
        }
        let mut j: usize = 0;
        while j < i
            invariant
                i < layers@.len(),
                j <= i,
                id == layers@[i as int].id,
                id != 0,
                forall|k: int| 0 <= k < i ==> !input_layer_invalid(layers@, k),
                forall|q: int| 0 <= q < j ==> layers@[q].id != id,
            decreases i - j,
        {
            if layers[j].id == id {
                assert(input_layer_invalid(layers@, i as int));
                return Err(AnimationParseError::DuplicateId { kind: "input layer".to_owned(), id });
            }
            j = j + 1;
        }
        i = i + 1;
    }
    Ok(())
}

/// One `mlst` record of a layer: the frame it describes and its explicit enable flag.
#[derive(Debug, Clone, Copy, PartialEq, Eq, Structural)]
pub struct RawFrameRecord {
    /// Frame identifier.
    pub frame_id: u32,
    /// Explicit visibility, when the record supplied one.
    pub enable: Option<bool>,
}

/// The resolved visibility of one layer in one frame.
#[derive(Debug, Clone, Copy, PartialEq, Eq, Structural)]
pub struct FrameEnableState {
    /// Frame identifier.
    pub frame_id: u32,
    /// Whether the source supplied an mlst record for this frame.
    pub record_present: bool,
    /// Resolved visibility after enable inheritance.
    pub enabled: bool,
    /// Whether this record explicitly supplied enable.
    pub explicit_enable: bool,
    /// Index of the record that describes this frame, when one does.
    pub record_index: Option<usize>,
}

/// The resolved visibility of one layer over the complete frame sequence.
#[derive(Debug, Clone, PartialEq, Eq)]
pub struct LayerEnableStates {
    /// Layer identifier.
    pub layer_id: u32,
    /// State for each global frame, in frame order.
    pub frames: Vec<FrameEnableState>,
}

/// The index of the first record for `frame_id`, searching from `from`.
pub open spec fn first_record(records: Seq<RawFrameRecord>, frame_id: u32, from: int) -> Option<int>
    decreases records.len() - from,
{
    if from < 0 || from >= records.len() {
        None
    } else if records[from].frame_id == frame_id {
        Some(from)
    } else {
        first_record(records, frame_id, from + 1)
    }
}

/// The explicit enable of the record that describes `frame_id`, if any.
pub open spec fn record_enable(records: Seq<RawFrameRecord>, frame_id: u32) -> Option<bool> {
    match first_record(records, frame_id, 0) {
        Some(k) => records[k].enable,
        None => None,
    }
}

/// Whether a layer carries any animation record at all.
pub open spec fn has_records(records: Option<Seq<RawFrameRecord>>) -> bool {
    records matches Some(r) && r.len() > 0
}

/// One step of enable inheritance: a selector group follows its record (hidden without
/// one), a recorded frame takes an explicit enable or keeps the previous state, an
/// unrecorded frame of an animated layer is hidden, and a layer without records keeps its
/// base visibility.
pub open spec fn next_enabled(layer: AnimationLayerInput, records: Option<Seq<RawFrameRecord>>, frame_id: u32, previous: bool) -> bool {
    let recs = records.unwrap_or(Seq::empty());
    let present = first_record(recs, frame_id, 0) is Some;
    let explicit = record_enable(recs, frame_id);
    if layer.is_group && !layer.is_container_group && has_records(records) {
        explicit.unwrap_or(false)
    } else if present {
        explicit.unwrap_or(previous)
    } else if has_records(records) {
        false
    } else {
        previous
    }
}

/// The visibility after the first `n` frames, starting from the base visibility.
pub open spec fn enabled_after(layer: AnimationLayerInput, records: Option<Seq<RawFrameRecord>>, frame_ids: Seq<u32>, n: int) -> bool
    decreases n,
{
    if n <= 0 {
        !layer.hidden
    } else {
        next_enabled(layer, records, frame_ids[n - 1], enabled_after(layer, records, frame_ids, n - 1))
    }
}

/// The resolved state of frame `n`.
pub open spec fn resolved_state(layer: AnimationLayerInput, records: Option<Seq<RawFrameRecord>>, frame_ids: Seq<u32>, n: int) -> FrameEnableState {
    let recs = records.unwrap_or(Seq::empty());
    let found = first_record(recs, frame_ids[n], 0);
    FrameEnableState {
        frame_id: frame_ids[n],
        record_present: found is Some,
        enabled: enabled_after(layer, records, frame_ids, n + 1),
        explicit_enable: record_enable(recs, frame_ids[n]) is Some,
        record_index: match found {
            Some(k) => Some(k as usize),
            None => None,
        },
    }
}

/// The first record found from `from` lies at or after `from` and describes the frame.
pub proof fn lemma_first_record(records: Seq<RawFrameRecord>, frame_id: u32, from: int)
    requires
        first_record(records, frame_id, from) is Some,
    ensures
        from <= first_record(records, frame_id, from)->0 < records.len(),
        records[first_record(records, frame_id, from)->0].frame_id == frame_id,
    decreases records.len() - from,
{
    if records[from].frame_id != frame_id {
        lemma_first_record(records, frame_id, from + 1);
    }
}

fn find_record(records: &Vec<RawFrameRecord>, frame_id: u32) -> (found: Option<usize>)
    ensures
        match found {
            Some(k) => first_record(records@, frame_id, 0) == Some(k as int) && k < records@.len(),
            None => first_record(records@, frame_id, 0) is None,
        },
{
    let mut k: usize = 0;
    while k < records.len()
        invariant
            k <= records@.len(),
            first_record(records@, frame_id, 0) == first_record(records@, frame_id, k as int),
        decreases records@.len() - k,
    {
        if records[k].frame_id == frame_id {
            return Some(k);
        }
        assert(first_record(records@, frame_id, k as int) == first_record(records@, frame_id, k + 1));
        k = k + 1;
    }
    None
}

/// Resolves enable inheritance over the frame sequence for one layer, given its `mlst`
/// records (`None` where the layer has no `shmd` metadata).
pub fn resolve_layer_states(layer: &AnimationLayerInput, records: Option<&Vec<RawFrameRecord>>, frames: &Vec<PhotoshopFrame>) -> (states: Vec<FrameEnableState>)
    ensures
        states@.len() == frames@.len(),
        forall|n: int| 0 <= n < frames@.len() ==> #[trigger] states@[n] == resolved_state(
            *layer,
            match records { Some(r) => Some(r@), None => None },
            frames@.map_values(|f: PhotoshopFrame| f.id),
            n,
        ),
{
    let ghost recs_opt: Option<Seq<RawFrameRecord>> = match records { Some(r) => Some(r@), None => None };
    let ghost ids = frames@.map_values(|f: PhotoshopFrame| f.id);
    let empty: Vec<RawFrameRecord> = Vec::new();
    let recs: &Vec<RawFrameRecord> = match records {
        Some(r) => r,
        None => &empty,
    };
    assert(recs@ == recs_opt.unwrap_or(Seq::empty()));
    let has_animation_records = recs.len() > 0;
    assert(has_animation_records == has_records(recs_opt));
    let mut previous = !layer.hidden;
    let mut states: Vec<FrameEnableState> = Vec::new();
    let mut n: usize = 0;
    while n < frames.len()
        invariant
            n <= frames@.len(),
            ids == frames@.map_values(|f: PhotoshopFrame| f.id),
            recs@ == recs_opt.unwrap_or(Seq::empty()),
            has_animation_records == has_records(recs_opt),
            previous == enabled_after(*layer, recs_opt, ids, n as int),
            states@.len() == n,
            forall|q: int| 0 <= q < n ==> #[trigger] states@[q] == resolved_state(*layer, recs_opt, ids, q),
        decreases frames@.len() - n,
    {
        let frame_id = frames[n].id;
        assert(ids[n as int] == frame_id);
        let found = find_record(recs, frame_id);
        let explicit = match found {
            Some(k) => recs[k].enable,
            None => None,
        };
        if layer.is_group && !layer.is_container_group && has_animation_records {
            previous = match explicit {
                Some(value) => value,
                None => false,
            };
        } else if found.is_some() {
            match explicit {
                Some(value) => {
                    previous = value;
                },
                None => {},
            }
        } else if has_animation_records {
            previous = false;
        }
        let state = FrameEnableState {
            frame_id,
            record_present: found.is_some(),
            enabled: previous,
            explicit_enable: explicit.is_some(),
            record_index: found,
        };
        states.push(state);
        assert(states@[n as int] == resolved_state(*layer, recs_opt, ids, n as int));
        n = n + 1;
    }
    states
}

/// The resolved visibility of one layer over the frame sequence, under the layer's own ID.
pub fn layer_enable_states(layer: &AnimationLayerInput, records: Option<&Vec<RawFrameRecord>>, frames: &Vec<PhotoshopFrame>) -> (resolved: LayerEnableStates)
    ensures
        resolved.layer_id == layer.id,
        resolved.frames@.len() == frames@.len(),
        forall|n: int| 0 <= n < frames@.len() ==> #[trigger] resolved.frames@[n] == resolved_state(
            *layer,
            match records { Some(r) => Some(r@), None => None },
            frames@.map_values(|f: PhotoshopFrame| f.id),
            n,
        ),
{
    LayerEnableStates { layer_id: layer.id, frames: resolve_layer_states(layer, records, frames) }
}

/// The state that a layer's frame list records for `frame_id`, searching from `from`.
pub open spec fn frame_state_from(frames: Seq<FrameEnableState>, frame_id: u32, from: int) -> Option<FrameEnableState>
    decreases frames.len() - from,
{
    if from < 0 || from >= frames.len() {
        None
    } else if frames[from].frame_id == frame_id {
        Some(frames[from])
    } else {
        frame_state_from(frames, frame_id, from + 1)
    }
}

/// The index of the first state list that belongs to layer `id`, searching from `from`.
pub open spec fn layer_state_from(states: Seq<LayerEnableStates>, id: u32, from: int) -> Option<int>
    decreases states.len() - from,
{
    if from < 0 || from >= states.len() {
        None
    } else if states[from].layer_id == id {
        Some(from)
    } else {
        layer_state_from(states, id, from + 1)
    }
}

/// Whether the layer with ID `id` is enabled in `frame_id`, as its state list says.
pub open spec fn enabled_in(states: Seq<LayerEnableStates>, id: u32, frame_id: u32) -> bool {
    match layer_state_from(states, id, 0) {
        Some(k) => frame_state_from(states[k].frames@, frame_id, 0) matches Some(s) && s.enabled,
        None => false,
    }
}

/// Whether input layer `i` is a visible pixel layer in `frame_id`: enabled itself, with
/// every ancestor group enabled too.
pub open spec fn pixel_layer_visible(layers: Seq<AnimationLayerInput>, states: Seq<LayerEnableStates>, i: int, frame_id: u32) -> bool {
    &&& !layers[i].is_group
    &&& frame_state_from(states[i].frames@, frame_id, 0) matches Some(s) && s.enabled
    &&& forall|q: int| 0 <= q < layers[i].ancestor_ids@.len() ==> enabled_in(states, #[trigger] layers[i].ancestor_ids@[q], frame_id)
}

/// The IDs of the visible pixel layers among the first `n` layers, in tree order.
pub open spec fn visible_ids(layers: Seq<AnimationLayerInput>, states: Seq<LayerEnableStates>, frame_id: u32, n: int) -> Seq<u32>
    decreases n,
{
    if n <= 0 {
        Seq::empty()
    } else if pixel_layer_visible(layers, states, n - 1, frame_id) {
        visible_ids(layers, states, frame_id, n - 1).push(layers[n - 1].id)
    } else {
        visible_ids(layers, states, frame_id, n - 1)
    }
}

/// Finds a resolved frame state by frame ID.
pub fn state_for_frame(state: &LayerEnableStates, frame_id: u32) -> (found: Option<FrameEnableState>)
    ensures
        found == frame_state_from(state.frames@, frame_id, 0),
{
    let mut k: usize = 0;
    while k < state.frames.len()
        invariant
            k <= state.frames@.len(),
            frame_state_from(state.frames@, frame_id, 0) == frame_state_from(state.frames@, frame_id, k as int),
        decreases state.frames@.len() - k,
    {
        if state.frames[k].frame_id == frame_id {
            return Some(state.frames[k]);
        }
        k = k + 1;
    }
    None
}

fn layer_enabled_in(states: &Vec<LayerEnableStates>, id: u32, frame_id: u32) -> (enabled: bool)
    ensures
        enabled == enabled_in(states@, id, frame_id),
{
    let mut k: usize = 0;
    while k < states.len()
        invariant
            k <= states@.len(),
            layer_state_from(states@, id, 0) == layer_state_from(states@, id, k as int),
        decreases states@.len() - k,
    {
        if states[k].layer_id == id {
            return match state_for_frame(&states[k], frame_id) {
                Some(found) => found.enabled,
                None => false,
            };
        }
        k = k + 1;
    }
    false
}

fn layer_visible_in_frame(layers: &Vec<AnimationLayerInput>, states: &Vec<LayerEnableStates>, i: usize, frame_id: u32) -> (visible: bool)
    requires
        i < layers@.len(),
        i < states@.len(),
    ensures
        visible == pixel_layer_visible(layers@, states@, i as int, frame_id),
{
    let layer = &layers[i];
    if layer.is_group {
        return false;
    }
    match state_for_frame(&states[i], frame_id) {
        Some(found) => {
            if !found.enabled {
                return false;
            }
        },
        None => {
            return false;
        },
    }
    let mut q: usize = 0;
    while q < layer.ancestor_ids.len()
        invariant
            i < layers@.len(),
            layer == layers@[i as int],
            q <= layer.ancestor_ids@.len(),
            forall|r: int| 0 <= r < q ==> enabled_in(states@, #[trigger] layer.ancestor_ids@[r], frame_id),
        decreases layer.ancestor_ids@.len() - q,
    {
        if !layer_enabled_in(states, layer.ancestor_ids[q], frame_id) {
            return false;
        }
        q = q + 1;
    }
    true
}

/// Applies layer and ancestor-group visibility to pixel leaves: for every frame, the IDs
/// of the visible pixel layers in tree order. Layers and state lists are paired by
/// position; layers past the shorter of the two are ignored.
pub fn resolve_visible_layers(layers: &Vec<AnimationLayerInput>, states: &Vec<LayerEnableStates>, frames: &Vec<PhotoshopFrame>) -> (visible: Vec<VisibleFrameLayers>)
    ensures
        visible@.len() == frames@.len(),
        forall|f: int| 0 <= f < frames@.len() ==> {
            &&& (#[trigger] visible@[f]).frame_id == frames@[f].id
            &&& visible@[f].layer_ids@ == visible_ids(layers@, states@, frames@[f].id, if layers@.len() <= states@.len() { layers@.len() as int } else { states@.len() as int })
        },
{
    let paired = if layers.len() <= states.len() { layers.len() } else { states.len() };
    let mut visible: Vec<VisibleFrameLayers> = Vec::new();
    let mut f: usize = 0;
    while f < frames.len()
        invariant
            f <= frames@.len(),
            paired == (if layers@.len() <= states@.len() { layers@.len() as int } else { states@.len() as int }),
            visible@.len() == f,
            forall|g: int| 0 <= g < f ==> {
                &&& (#[trigger] visible@[g]).frame_id == frames@[g].id
                &&& visible@[g].layer_ids@ == visible_ids(layers@, states@, frames@[g].id, paired as int)
            },
        decreases frames@.len() - f,
    {
        let frame_id = frames[f].id;
        let mut layer_ids: Vec<u32> = Vec::new();
        let mut i: usize = 0;
        while i < paired
            invariant
                paired <= layers@.len(),
                paired <= states@.len(),
                i <= paired,
                layer_ids@ == visible_ids(layers@, states@, frame_id, i as int),
            decreases paired - i,
        {
            if layer_visible_in_frame(layers, states, i, frame_id) {
                layer_ids.push(layers[i].id);
            }
            i = i + 1;
        }
        visible.push(VisibleFrameLayers { frame_id, layer_ids });
        f = f + 1;
    }
    visible
}

/// The `shmd` metadata of one layer record: its `mlst` descriptor payloads in order and
/// its nested `mdyn` flags.
#[derive(Debug, Clone, PartialEq, Eq)]
pub struct LayerMetadata {
    /// The payload of every `mlst` record, for the descriptor reader.
    pub mlst_payloads: Vec<Vec<u8>>,
    /// Flags from a nested `mdyn` record.
    pub flags: Option<AnimationFlags>,
}

/// The animation-relevant facts of one PSD layer record.
#[derive(Debug, Clone, PartialEq, Eq)]
pub struct RawLayer {
    /// The `lyid` layer identifier, when present.
    pub id: Option<u32>,
    /// The `shmd` metadata, when present.
    pub shmd: Option<LayerMetadata>,
    /// Flags from a direct `mdyn` record.
    pub flags: Option<AnimationFlags>,
    /// Whether the record is a bounding section divider.
    pub is_bounding_divider: bool,
}

/// Whether raw layer `i` is the first with a missing or repeated ID.
pub open spec fn raw_layer_invalid(layers: Seq<RawLayer>, i: int) -> bool {
    layers[i].id is None || exists|j: int| 0 <= j < i && #[trigger] layers[j].id == layers[i].id
}

/// Checks that every raw layer carries a strict ID and no ID repeats; the first record
/// that breaks this is reported.
pub fn index_raw_layers(layers: &Vec<RawLayer>) -> (checked: Result<(), AnimationParseError>)
    ensures
        match checked {
            Ok(()) => forall|i: int| 0 <= i < layers@.len() ==> !raw_layer_invalid(layers@, i),
            Err(e) => exists|i: int| {
                &&& 0 <= i < layers@.len()
                &&& #[trigger] raw_layer_invalid(layers@, i)
                &&& forall|k: int| 0 <= k < i ==> !raw_layer_invalid(layers@, k)
                &&& match layers@[i].id {
                    None => e matches AnimationParseError::MissingLayerId { path } && path@ == "<raw layer>"@,
                    Some(id) => e matches AnimationParseError::DuplicateId { kind, id: dup } && kind@ == "layer"@
                        && dup == id,
                }
            },
        },
{
    let mut i: usize = 0;
    while i < layers.len()
        invariant
            i <= layers@.len(),
            forall|k: int| 0 <= k < i ==> !raw_layer_invalid(layers@, k),
        decreases layers@.len() - i,
    {
        let id = match layers[i].id {
            Some(id) => id,
            None => {
                assert(raw_layer_invalid(layers@, i as int));
                return Err(AnimationParseError::MissingLayerId { path: "<raw layer>".to_owned() });
            },
        };
        let mut j: usize = 0;
        while j < i
            invariant
                i < layers@.len(),
                j <= i,
                layers@[i as int].id == Some(id),
                forall|k: int| 0 <= k < i ==> !raw_layer_invalid(layers@, k),
                forall|q: int| 0 <= q < j ==> layers@[q].id != Some(id),
            decreases i - j,
        {
            if layers[j].id == Some(id) {
                assert(raw_layer_invalid(layers@, i as int));
                return Err(AnimationParseError::DuplicateId { kind: "layer".to_owned(), id });
            }
            j = j + 1;
        }
        i = i + 1;
    }
    Ok(())
}

/// Merges the flags of one more record into the flags seen so far; records must agree.
pub fn merge_flags(current: Option<AnimationFlags>, next: AnimationFlags) -> (merged: Result<Option<AnimationFlags>, AnimationParseError>)
    ensures
        match merged {
            Ok(flags) => flags == Some(next) && (current is Some ==> current->0 == next),
            Err(e) => current is Some && current->0 != next && (e matches AnimationParseError::InvalidData(m)
                && m@ == "conflicting mdyn flags across layers"@),
        },
{
    match current {
        Some(existing) => {
            if existing != next {
                return Err(AnimationParseError::InvalidData("conflicting mdyn flags across layers".to_owned()));
            }
            Ok(Some(existing))
        },
        None => Ok(Some(next)),
    }
}

/// The flags an `mdyn` payload declares: byte 2 clears frame-one propagation, bits 0, 1
/// and 2 of byte 3 unify position, style and visibility.
pub open spec fn mdyn_flags(data: Seq<u8>) -> AnimationFlags {
    AnimationFlags {
        propagate_frame_one: data[2] == 0,
        unify_layer_position: data[3] & 1 != 0,
        unify_layer_style: data[3] & 2 != 0,
        unify_layer_visibility: data[3] & 4 != 0,
    }
}

/// Parses `mdyn` propagation and unification flags.
pub fn parse_mdyn(data: &[u8]) -> (flags: Result<AnimationFlags, AnimationParseError>)
    ensures
        match flags {
            Ok(f) => data@.len() >= 4 && f == mdyn_flags(data@),
            Err(e) => data@.len() < 4 && e is Truncated,
        },
{
    let mut cursor = Cursor::new(data);
    cursor.skip(2, "mdyn version")?;
    let propagate = cursor.u8("mdyn propagate")?;
    let flags = cursor.u8("mdyn flags")?;
    Ok(AnimationFlags {
        propagate_frame_one: propagate == 0,
        unify_layer_position: flags & 1 != 0,
        unify_layer_style: flags & 2 != 0,
        unify_layer_visibility: flags & 4 != 0,
    })
}

// ---------------------------------------------------------------------------
// The animation-relevant facts of layer records
// ---------------------------------------------------------------------------

/// What `shmd` metadata holds, in plain values.
pub struct ShmdModel {
    /// The `mlst` payloads, in order.
    pub mlst_payloads: Seq<Seq<u8>>,
    /// The nested `mdyn` flags.
    pub flags: Option<AnimationFlags>,
}

/// What a layer record holds for animation, in plain values.
pub struct RawLayerModel {
    /// The `lyid` identifier.
    pub id: Option<u32>,
    /// The `shmd` metadata.
    pub shmd: Option<ShmdModel>,
    /// The direct `mdyn` flags.
    pub flags: Option<AnimationFlags>,
    /// Whether the record is a bounding section divider.
    pub is_bounding_divider: bool,
}

/// The plain values of `shmd` metadata.
pub open spec fn shmd_model(m: LayerMetadata) -> ShmdModel {
    ShmdModel { mlst_payloads: m.mlst_payloads@.map_values(|v: Vec<u8>| v@), flags: m.flags }
}

/// The plain values of a raw layer.
pub open spec fn raw_layer_model(r: RawLayer) -> RawLayerModel {
    RawLayerModel {
        id: r.id,
        shmd: match r.shmd { Some(m) => Some(shmd_model(m)), None => None },
        flags: r.flags,
        is_bounding_divider: r.is_bounding_divider,
    }
}

/// The four-byte tags that the scanner recognizes.
pub open spec fn tag(a: u8, b: u8, c: u8, d: u8) -> Seq<u8> {
    seq![a, b, c, d]
}

/// `8BIM`.
pub open spec fn sig_8bim() -> Seq<u8> {
    tag(0x38, 0x42, 0x49, 0x4d)
}

/// `8B64`.
pub open spec fn sig_8b64() -> Seq<u8> {
    tag(0x38, 0x42, 0x36, 0x34)
}

/// The `shmd` metadata after `remaining` more records from `pos`, or `None` where a record
/// is malformed or truncated: each record is `8BIM`, a key, four copy-flag bytes, a length
/// and the payload, padded to an even size; `mlst` payloads are kept and one `mdyn` record
/// gives the flags.
pub open spec fn shmd_records(d: Seq<u8>, pos: int, remaining: nat, acc: ShmdModel) -> Option<ShmdModel>
    decreases remaining,
{
    if remaining == 0 {
        Some(acc)
    } else if pos < 0 || pos + 16 > d.len() || d.subrange(pos, pos + 4) != sig_8bim() {
        None
    } else {
        let key = d.subrange(pos + 4, pos + 8);
        let length = be_u32_at(d, pos + 12);
        let start = pos + 16;
        let end = start + length;
        let next = if length % 2 == 1 { end + 1 } else { end };
        if end > d.len() || next > d.len() {
            None
        } else {
            let payload = d.subrange(start, end);
            let step = if key == tag(0x6d, 0x6c, 0x73, 0x74) {
                Some(ShmdModel { mlst_payloads: acc.mlst_payloads.push(payload), flags: acc.flags })
            } else if key == tag(0x6d, 0x64, 0x79, 0x6e) {
                if acc.flags is Some || length < 4 {
                    None
                } else {
                    Some(ShmdModel { mlst_payloads: acc.mlst_payloads, flags: Some(mdyn_flags(payload)) })
                }
            } else {
                Some(acc)
            };
            match step {
                None => None,
                Some(a) => shmd_records(d, next, (remaining - 1) as nat, a),
            }
        }
    }
}

/// The `shmd` metadata a payload holds: a record count, then the records.
pub open spec fn shmd_metadata(d: Seq<u8>) -> Option<ShmdModel> {
    if d.len() < 4 {
        None
    } else {
        shmd_records(d, 4, be_u32_at(d, 0) as nat, ShmdModel { mlst_payloads: Seq::empty(), flags: None })
    }
}

fn owned_bytes(source: &[u8]) -> (copy: Vec<u8>)
    ensures
        copy@ == source@,
{
    let mut copy: Vec<u8> = Vec::new();
    let mut i: usize = 0;
    while i < source.len()
        invariant
            i <= source@.len(),
            copy@ == source@.take(i as int),
        decreases source@.len() - i,
    {
        copy.push(source[i]);
        assert(source@.take(i as int + 1) == source@.take(i as int).push(source@[i as int]));
        i = i + 1;
    }
    assert(source@.take(source@.len() as int) == source@);
    copy
}

fn tag_equals(value: &[u8], a: u8, b: u8, c: u8, d: u8) -> (equal: bool)
    ensures
        equal == (value@ == tag(a, b, c, d)),
{
    if value.len() != 4 {
        return false;
    }
    let result = value[0] == a && value[1] == b && value[2] == c && value[3] == d;
    proof {
        if result {
            assert(value@ =~= tag(a, b, c, d));
        } else if value@ == tag(a, b, c, d) {
            assert(value@[0] == a && value@[1] == b && value@[2] == c && value@[3] == d);
        }
    }
    result
}

/// Parses the nested `shmd` metadata record collection.
pub fn parse_shmd(data: &[u8]) -> (metadata: Result<LayerMetadata, AnimationParseError>)
    ensures
        match metadata {
            Ok(m) => shmd_metadata(data@) == Some(shmd_model(m)),
            Err(_) => shmd_metadata(data@) is None,
        },
{
    let mut cursor = Cursor::new(data);
    let count = cursor.u32("shmd record count")?;
    let ghost total = shmd_metadata(data@);
    let mut metadata = LayerMetadata { mlst_payloads: Vec::new(), flags: None };
    assert(shmd_model(metadata) == ShmdModel { mlst_payloads: Seq::<Seq<u8>>::empty(), flags: None::<AnimationFlags> }) by {
        assert(metadata.mlst_payloads@.map_values(|v: Vec<u8>| v@) =~= Seq::<Seq<u8>>::empty());
    }
    let mut done: u32 = 0;
    while done < count
        invariant
            cursor@.0 == data@,
            cursor_wf(cursor@),
            done <= count,
            total == shmd_metadata(data@),
            data@.len() >= 4,
            count == be_u32_at(data@, 0),
            shmd_records(data@, cursor@.1, (count - done) as nat, shmd_model(metadata)) == total,
        decreases count - done,
    {
        let ghost pos = cursor@.1;
        let ghost before = shmd_model(metadata);
        let signature_ok = cursor.expect_bytes(&[0x38u8, 0x42, 0x49, 0x4d], "shmd record signature");
        if signature_ok.is_err() {
            proof {
                assert(pos + 16 > data@.len() || data@.subrange(pos, pos + 4) != sig_8bim());
            }
            return Err(signature_ok.unwrap_err());
        }
        let key = cursor.take(4, "shmd record key")?;
        cursor.skip(4, "shmd record copy flags")?;
        let length = cursor.u32("shmd record length")?;
        let payload = cursor.take(length as usize, "shmd record payload")?;
        if length % 2 == 1 {
            cursor.skip(1, "shmd record padding")?;
        }
        assert(key@ == data@.subrange(pos + 4, pos + 8));
        if tag_equals(key, 0x6d, 0x6c, 0x73, 0x74) {
            let ghost old_payloads = metadata.mlst_payloads@;
            metadata.mlst_payloads.push(owned_bytes(payload));
            assert(metadata.mlst_payloads@.map_values(|v: Vec<u8>| v@) =~= old_payloads.map_values(|v: Vec<u8>| v@).push(payload@));
        } else if tag_equals(key, 0x6d, 0x64, 0x79, 0x6e) {
            if metadata.flags.is_some() {
                return Err(AnimationParseError::InvalidData("duplicate mdyn layer metadata".to_owned()));
            }
            let flags = parse_mdyn(payload)?;
            metadata.flags = Some(flags);
        }
        proof {
            assert(shmd_model(metadata).mlst_payloads == metadata.mlst_payloads@.map_values(|v: Vec<u8>| v@));
        }
        done = done + 1;
    }
    Ok(metadata)
}

/// Where the additional-info blocks of a layer's extra data start: after the mask data,
/// the blending ranges and the name padded to a multiple of four.
pub open spec fn extra_blocks_start(d: Seq<u8>) -> Option<int> {
    if d.len() < 4 {
        None
    } else {
        let p1 = 4 + be_u32_at(d, 0);
        if p1 + 4 > d.len() {
            None
        } else {
            let p2 = p1 + 4 + be_u32_at(d, p1);
            if p2 + 1 > d.len() {
                None
            } else {
                let p3 = p2 + ((1 + d[p2] + 3) / 4) * 4;
                if p3 > d.len() { None } else { Some(p3) }
            }
        }
    }
}

/// A layer record before any additional-info block.
pub open spec fn empty_layer_model() -> RawLayerModel {
    RawLayerModel { id: None, shmd: None, flags: None, is_bounding_divider: false }
}

/// What one additional-info block adds: an `lyid` of four bytes gives the ID once, `shmd`
/// metadata and `mdyn` flags may each come once, and a `lsct` or `lsdk` section divider
/// of at least four bytes marks a bounding divider with type 3.
pub open spec fn apply_info_block(acc: RawLayerModel, key: Seq<u8>, value: Seq<u8>) -> Option<RawLayerModel> {
    if key == tag(0x6c, 0x79, 0x69, 0x64) {
        if value.len() != 4 || acc.id is Some {
            None
        } else {
            Some(RawLayerModel { id: Some(be_u32_at(value, 0) as u32), ..acc })
        }
    } else if key == tag(0x73, 0x68, 0x6d, 0x64) {
        if acc.shmd is Some {
            None
        } else {
            match shmd_metadata(value) {
                None => None,
                Some(m) => Some(RawLayerModel { shmd: Some(m), ..acc }),
            }
        }
    } else if key == tag(0x6d, 0x64, 0x79, 0x6e) {
        if acc.flags is Some || value.len() < 4 {
            None
        } else {
            Some(RawLayerModel { flags: Some(mdyn_flags(value)), ..acc })
        }
    } else if (key == tag(0x6c, 0x73, 0x63, 0x74) || key == tag(0x6c, 0x73, 0x64, 0x6b)) && value.len() >= 4 {
        Some(RawLayerModel { is_bounding_divider: be_u32_at(value, 0) == 3, ..acc })
    } else {
        Some(acc)
    }
}

/// The layer facts after the additional-info blocks from `pos`, or `None` where a block
/// is malformed or truncated.
pub open spec fn extra_blocks(d: Seq<u8>, pos: int, acc: RawLayerModel) -> Option<RawLayerModel>
    decreases d.len() - pos,
{
    if pos < 0 || pos >= d.len() {
        Some(acc)
    } else if pos + 12 > d.len() || (d.subrange(pos, pos + 4) != sig_8bim() && d.subrange(pos, pos + 4) != sig_8b64()) {
        None
    } else {
        let length = be_u32_at(d, pos + 8);
        let end = pos + 12 + length;
        let next = if length % 2 == 1 { end + 1 } else { end };
        if end > d.len() || next > d.len() {
            None
        } else {
            proof {
                crate::roundtrip::lemma_be_u32_range(d, pos + 8);
            }
            match apply_info_block(acc, d.subrange(pos + 4, pos + 8), d.subrange(pos + 12, end)) {
                None => None,
                Some(a) => extra_blocks(d, next, a),
            }
        }
    }
}

/// The layer facts that a layer record's extra data holds.
pub open spec fn layer_extra_facts(d: Seq<u8>) -> Option<RawLayerModel> {
    match extra_blocks_start(d) {
        None => None,
        Some(start) => extra_blocks(d, start, empty_layer_model()),
    }
}

/// Reads the layer additional-info keys relevant to animation metadata.
pub fn scan_layer_extra(data: &[u8]) -> (layer: Result<RawLayer, AnimationParseError>)
    ensures
        match layer {
            Ok(l) => layer_extra_facts(data@) == Some(raw_layer_model(l)),
            Err(_) => layer_extra_facts(data@) is None,
        },
{
    let mut cursor = Cursor::new(data);
    let mask_length = cursor.u32("layer mask length")?;
    cursor.skip(mask_length as usize, "layer mask")?;
    let blending_length = cursor.u32("layer blending ranges length")?;
    cursor.skip(blending_length as usize, "layer blending ranges")?;
    let name_length = cursor.u8("layer name length")?;
    let name_bytes: usize = ((1 + name_length as usize + 3) / 4) * 4;
    cursor.skip(name_bytes - 1, "layer name")?;
    let ghost total = layer_extra_facts(data@);
    assert(extra_blocks_start(data@) == Some(cursor@.1));
    let mut layer = RawLayer { id: None, shmd: None, flags: None, is_bounding_divider: false };
    while cursor.remaining() > 0
        invariant
            cursor@.0 == data@,
            cursor_wf(cursor@),
            total == layer_extra_facts(data@),
            extra_blocks(data@, cursor@.1, raw_layer_model(layer)) == total,
        decreases data@.len() - cursor@.1,
    {
        let ghost pos = cursor@.1;
        let signature = cursor.take(4, "layer additional-info signature")?;
        let known = tag_equals(signature, 0x38, 0x42, 0x49, 0x4d) || tag_equals(signature, 0x38, 0x42, 0x36, 0x34);
        if !known {
            return Err(AnimationParseError::InvalidSignature {
                expected: "8BIM or 8B64".to_owned(),
                offset: cursor.offset() - 4,
            });
        }
        let key = cursor.take(4, "layer additional-info key")?;
        let length = cursor.u32("layer additional-info length")?;
        let value = cursor.take(length as usize, "layer additional-info value")?;
        if length % 2 == 1 {
            cursor.skip(1, "layer additional-info padding")?;
        }
        assert(key@ == data@.subrange(pos + 4, pos + 8));
        assert(value@ == data@.subrange(pos + 12, pos + 12 + length));
        let ghost before = raw_layer_model(layer);
        if tag_equals(key, 0x6c, 0x79, 0x69, 0x64) {
            if length != 4 {
                return Err(AnimationParseError::InvalidData("lyid must contain four bytes".to_owned()));
            }
            let id = (value[0] as u32) * 16777216 + (value[1] as u32) * 65536 + (value[2] as u32) * 256 + value[3] as u32;
            if layer.id.is_some() {
                return Err(AnimationParseError::DuplicateId { kind: "layer".to_owned(), id });
            }
            layer.id = Some(id);
        } else if tag_equals(key, 0x73, 0x68, 0x6d, 0x64) {
            if layer.shmd.is_some() {
                return Err(AnimationParseError::InvalidData("duplicate shmd layer metadata".to_owned()));
            }
            let metadata = parse_shmd(value)?;
            layer.shmd = Some(metadata);
        } else if tag_equals(key, 0x6d, 0x64, 0x79, 0x6e) {
            if layer.flags.is_some() {
                return Err(AnimationParseError::InvalidData("duplicate mdyn layer metadata".to_owned()));
            }
            let flags = parse_mdyn(value)?;
            layer.flags = Some(flags);
        } else if (tag_equals(key, 0x6c, 0x73, 0x63, 0x74) || tag_equals(key, 0x6c, 0x73, 0x64, 0x6b)) && length >= 4 {
            let divider_type = (value[0] as u32) * 16777216 + (value[1] as u32) * 65536 + (value[2] as u32) * 256 + value[3] as u32;
            layer.is_bounding_divider = divider_type == 3;
        }
        assert(apply_info_block(before, key@, value@) == Some(raw_layer_model(layer)));
    }
    Ok(layer)
}

/// The layer record at `pos`: where its extra data starts and ends; `None` where it is
/// malformed or truncated.
pub open spec fn layer_record_at(d: Seq<u8>, pos: int) -> Option<(int, int)> {
    if pos < 0 || pos + 18 > d.len() {
        None
    } else {
        let p = pos + 18 + be_u16_at(d, pos + 16) * 6;
        if p + 16 > d.len() || d.subrange(p, p + 4) != sig_8bim() {
            None
        } else {
            let start = p + 16;
            let end = start + be_u32_at(d, p + 12);
            if end > d.len() { None } else { Some((start, end)) }
        }
    }
}

/// The layers that `remaining` more layer records from `pos` describe, bounding dividers
/// left out, or `None` where a record is malformed or truncated.
pub open spec fn layer_records(d: Seq<u8>, pos: int, remaining: nat, acc: Seq<RawLayerModel>) -> Option<Seq<RawLayerModel>>
    decreases remaining,
{
    if remaining == 0 {
        Some(acc)
    } else {
        match layer_record_at(d, pos) {
            None => None,
            Some((start, end)) => match layer_extra_facts(d.subrange(start, end)) {
                None => None,
                Some(layer) => layer_records(d, end, (remaining - 1) as nat, if layer.is_bounding_divider { acc } else { acc.push(layer) }),
            },
        }
    }
}

fn next_layer_record<'a>(cursor: &mut Cursor<'a>) -> (extra: Result<&'a [u8], AnimationParseError>)
    ensures
        cursor_wf(final(cursor)@),
        final(cursor)@.0 == old(cursor)@.0,
        match extra {
            Ok(data) => layer_record_at(old(cursor)@.0, old(cursor)@.1) matches Some((start, end))
                && data@ == old(cursor)@.0.subrange(start, end) && final(cursor)@.1 == end,
            Err(_) => layer_record_at(old(cursor)@.0, old(cursor)@.1) is None,
        },
{
    cursor.check_bounds();
    cursor.skip(16, "layer bounds")?;
    let channel_count = cursor.u16("layer channel count")?;
    cursor.skip(channel_count as usize * 6, "layer channel records")?;
    let signature_ok = cursor.expect_bytes(&[0x38u8, 0x42, 0x49, 0x4d], "layer blend signature");
    if signature_ok.is_err() {
        return Err(signature_ok.unwrap_err());
    }
    cursor.skip(4, "layer blend mode")?;
    cursor.skip(4, "layer opacity and flags")?;
    let extra_length = cursor.u32("layer extra data length")?;
    cursor.take(extra_length as usize, "layer extra data")
}

/// The absolute value of a big-endian two's-complement 16-bit field.
pub open spec fn i16_magnitude(d: Seq<u8>, at: int) -> nat {
    let raw = be_u16_at(d, at);
    (if raw >= 32768 { 65536 - raw } else { raw }) as nat
}

/// The layers that a layer-and-mask section describes.
pub open spec fn layer_mask_layers(d: Seq<u8>) -> Option<Seq<RawLayerModel>> {
    if d.len() == 0 {
        Some(Seq::empty())
    } else if d.len() < 4 {
        None
    } else if be_u32_at(d, 0) == 0 {
        Some(Seq::empty())
    } else if 4 + be_u32_at(d, 0) > d.len() {
        None
    } else {
        let info = d.subrange(4, 4 + be_u32_at(d, 0));
        if info.len() < 2 {
            None
        } else {
            layer_records(info, 2, i16_magnitude(info, 0), Seq::empty())
        }
    }
}

/// The plain values of a list of raw layers.
pub open spec fn raw_layers_model(layers: Seq<RawLayer>) -> Seq<RawLayerModel> {
    layers.map_values(|l: RawLayer| raw_layer_model(l))
}

/// Walks PSD layer records and excludes bounding section dividers.
pub fn scan_layer_records(data: &[u8]) -> (layers: Result<Vec<RawLayer>, AnimationParseError>)
    ensures
        match layers {
            Ok(ls) => layer_mask_layers(data@) == Some(raw_layers_model(ls@)),
            Err(_) => layer_mask_layers(data@) is None,
        },
{
    if data.len() == 0 {
        let none: Vec<RawLayer> = Vec::new();
        assert(raw_layers_model(none@) =~= Seq::<RawLayerModel>::empty());
        return Ok(none);
    }
    if data.len() < 4 {
        return Err(AnimationParseError::Truncated { section: "layer info length".to_owned(), offset: 0 });
    }
    let mut outer = Cursor::new(data);
    let layer_info_length = outer.u32("layer info length")?;
    if layer_info_length == 0 {
        let none: Vec<RawLayer> = Vec::new();
        assert(raw_layers_model(none@) =~= Seq::<RawLayerModel>::empty());
        return Ok(none);
    }
    let layer_info = outer.take(layer_info_length as usize, "layer info")?;
    let mut cursor = Cursor::new(layer_info);
    let raw_count = cursor.i16("layer count")?;
    let count: usize = if raw_count < 0 { (0 - (raw_count as i32)) as usize } else { raw_count as usize };
    let ghost info = layer_info@;
    let ghost total = layer_mask_layers(data@);
    assert(total == layer_records(info, 2, count as nat, Seq::empty()));
    let mut layers: Vec<RawLayer> = Vec::new();
    assert(raw_layers_model(layers@) =~= Seq::<RawLayerModel>::empty());
    let mut done: usize = 0;
    while done < count
        invariant
            cursor@.0 == info,
            cursor_wf(cursor@),
            done <= count,
            total == layer_mask_layers(data@),
            layer_records(info, cursor@.1, (count - done) as nat, raw_layers_model(layers@)) == total,
        decreases count - done,
    {
        let extra = next_layer_record(&mut cursor)?;
        let layer = scan_layer_extra(extra)?;
        let ghost before = layers@;
        if !layer.is_bounding_divider {
            layers.push(layer);
            assert(raw_layers_model(layers@) =~= raw_layers_model(before).push(raw_layer_model(layer)));
        }
        done = done + 1;
    }
    Ok(layers)
}

/// The descriptor payload of an animation resource: `None` for a resource that is not
/// `mani`; otherwise the `AnDs` child of its `IRFR` section, which may occur at most once.
/// The outer `None` stands for a malformed resource.
pub open spec fn animation_descriptor(d: Seq<u8>) -> Option<Option<Seq<u8>>> {
    if d.len() < 4 || d.take(4) != tag(0x6d, 0x61, 0x6e, 0x69) {
        Some(None)
    } else if d.len() < 12 || d.subrange(4, 8) != tag(0x49, 0x52, 0x46, 0x52) || 12 + be_u32_at(d, 8) > d.len() {
        None
    } else {
        section_children(d.subrange(12, 12 + be_u32_at(d, 8)), 0, None)
    }
}

/// The `AnDs` payload among the children of an animation section from `pos`.
pub open spec fn section_children(s: Seq<u8>, pos: int, found: Option<Seq<u8>>) -> Option<Option<Seq<u8>>>
    decreases s.len() - pos,
{
    if pos < 0 || pos >= s.len() {
        Some(found)
    } else if pos + 12 > s.len() || s.subrange(pos, pos + 4) != sig_8bim() {
        None
    } else {
        let length = be_u32_at(s, pos + 8);
        let end = pos + 12 + length;
        let next = if length % 2 == 1 { end + 1 } else { end };
        if end > s.len() || next > s.len() {
            None
        } else {
            proof {
                crate::roundtrip::lemma_be_u32_range(s, pos + 8);
            }
            if s.subrange(pos + 4, pos + 8) == tag(0x41, 0x6e, 0x44, 0x73) {
                if found is Some { None } else { section_children(s, next, Some(s.subrange(pos + 12, end))) }
            } else {
                section_children(s, next, found)
            }
        }
    }
}

/// Finds the animation descriptor payload of one image resource body.
pub fn parse_animation_resource(data: &[u8]) -> (descriptor: Result<Option<Vec<u8>>, AnimationParseError>)
    ensures
        match descriptor {
            Ok(Some(payload)) => animation_descriptor(data@) == Some(Some(payload@)),
            Ok(None) => animation_descriptor(data@) == Some(None::<Seq<u8>>),
            Err(_) => animation_descriptor(data@) is None,
        },
{
    let mut cursor = Cursor::new(data);
    if cursor.remaining() < 4 {
        return Ok(None);
    }
    let head = cursor.peek_bytes(4)?;
    assert(head@ == data@.take(4));
    if !tag_equals(head, 0x6d, 0x61, 0x6e, 0x69) {
        return Ok(None);
    }
    cursor.expect_bytes(&[0x6du8, 0x61, 0x6e, 0x69], "animation resource")?;
    let irfr_ok = cursor.expect_bytes(&[0x49u8, 0x52, 0x46, 0x52], "animation resource");
    if irfr_ok.is_err() {
        return Err(irfr_ok.unwrap_err());
    }
    let section_length = cursor.u32("animation resource section length")?;
    let section = cursor.take(section_length as usize, "animation resource section")?;
    let ghost total = animation_descriptor(data@);
    let mut section_cursor = Cursor::new(section);
    let mut descriptor: Option<Vec<u8>> = None;
    while section_cursor.remaining() > 0
        invariant
            section_cursor@.0 == section@,
            cursor_wf(section_cursor@),
            total == animation_descriptor(data@),
            section_children(section@, section_cursor@.1, match descriptor { Some(v) => Some(v@), None => None }) == total,
        decreases section@.len() - section_cursor@.1,
    {
        let ghost pos = section_cursor@.1;
        let signature_ok = section_cursor.expect_bytes(&[0x38u8, 0x42, 0x49, 0x4d], "animation subresource");
        if signature_ok.is_err() {
            return Err(signature_ok.unwrap_err());
        }
        let key = section_cursor.take(4, "animation subresource key")?;
        let payload_length = section_cursor.u32("animation descriptor length")?;
        let payload = section_cursor.take(payload_length as usize, "animation descriptor")?;
        if payload_length % 2 == 1 {
            section_cursor.skip(1, "animation descriptor padding")?;
        }
        assert(key@ == section@.subrange(pos + 4, pos + 8));
        if tag_equals(key, 0x41, 0x6e, 0x44, 0x73) {
            if descriptor.is_some() {
                return Err(AnimationParseError::InvalidData("duplicate AnDs animation descriptor".to_owned()));
            }
            descriptor = Some(owned_bytes(payload));
        }
    }
    Ok(descriptor)
}

/// The image resource at `pos`: its ID, where its data starts and ends, and where the
/// next resource starts; `None` where it is malformed or truncated.
pub open spec fn resource_at(d: Seq<u8>, pos: int) -> Option<(u16, int, int, int)> {
    if pos < 0 || pos + 7 > d.len() || d.subrange(pos, pos + 4) != sig_8bim() {
        None
    } else {
        let id = be_u16_at(d, pos + 4) as u16;
        let name_length = d[pos + 6] as int;
        let p = pos + 7 + name_length + if name_length % 2 == 0 { 1int } else { 0int };
        if p + 4 > d.len() {
            None
        } else {
            let length = be_u32_at(d, p);
            let end = p + 4 + length;
            let next = if length % 2 == 1 { end + 1 } else { end };
            if end > d.len() || next > d.len() {
                None
            } else {
                Some((id, p + 4, end, next))
            }
        }
    }
}

/// The animation descriptors, with the IDs of their resources, that the image resources
/// from `pos` carry: resources 4000 and 4003 whose body holds one. `None` where a resource
/// is malformed or truncated.
pub open spec fn resource_descriptors(d: Seq<u8>, pos: int, acc: Seq<(u16, Seq<u8>)>) -> Option<Seq<(u16, Seq<u8>)>>
    decreases d.len() - pos,
{
    if pos < 0 || pos >= d.len() {
        Some(acc)
    } else {
        match resource_at(d, pos) {
            None => None,
            Some((id, start, end, next)) => {
                if next <= pos {
                    None
                } else if id == 4000 || id == 4003 {
                    match animation_descriptor(d.subrange(start, end)) {
                        None => None,
                        Some(None) => resource_descriptors(d, next, acc),
                        Some(Some(payload)) => resource_descriptors(d, next, acc.push((id, payload))),
                    }
                } else {
                    resource_descriptors(d, next, acc)
                }
            },
        }
    }
}

fn next_resource<'a>(cursor: &mut Cursor<'a>) -> (resource: Result<(u16, &'a [u8]), AnimationParseError>)
    ensures
        cursor_wf(final(cursor)@),
        final(cursor)@.0 == old(cursor)@.0,
        match resource {
            Ok((id, data)) => resource_at(old(cursor)@.0, old(cursor)@.1) matches Some((rid, start, end, next))
                && id == rid && data@ == old(cursor)@.0.subrange(start, end) && final(cursor)@.1 == next && next > old(cursor)@.1,
            Err(_) => resource_at(old(cursor)@.0, old(cursor)@.1) is None,
        },
{
    cursor.check_bounds();
    let ghost d = cursor@.0;
    let ghost pos = cursor@.1;
    let signature_ok = cursor.expect_bytes(&[0x38u8, 0x42, 0x49, 0x4d], "image resource signature");
    if signature_ok.is_err() {
        return Err(signature_ok.unwrap_err());
    }
    let id = cursor.u16("image resource ID")?;
    let name_length = cursor.u8("image resource name length")?;
    cursor.skip(name_length as usize, "image resource name")?;
    if (1 + name_length as usize) % 2 != 0 {
        cursor.skip(1, "image resource name padding")?;
    }
    let data_length = cursor.u32("image resource length")?;
    let data = cursor.take(data_length as usize, "image resource data")?;
    if data_length % 2 == 1 {
        cursor.skip(1, "image resource data padding")?;
    }
    Ok((id, data))
}

/// The sections of a PSD that the animation scanner reads.
#[derive(Debug, Clone, PartialEq, Eq)]
pub struct ScanResult {
    /// Animation descriptor payloads with the IDs of the resources that carried them.
    pub animation_descriptors: Vec<(u16, Vec<u8>)>,
    /// The IDs of the resources that carried a descriptor, in order.
    pub resource_ids: Vec<u16>,
    /// The layer records, bounding dividers left out.
    pub layers: Vec<RawLayer>,
}

/// The plain values of descriptor payloads with their resource IDs.
pub open spec fn descriptors_model(ds: Seq<(u16, Vec<u8>)>) -> Seq<(u16, Seq<u8>)> {
    ds.map_values(|e: (u16, Vec<u8>)| (e.0, e.1@))
}

/// Reads image resources and extracts the 4000/4003 animation descriptors, with the IDs
/// of the resources that carried them.
pub fn scan_resources(resources: &[u8]) -> (descriptors: Result<Vec<(u16, Vec<u8>)>, AnimationParseError>)
    ensures
        match descriptors {
            Ok(ds) => resource_descriptors(resources@, 0, Seq::empty()) == Some(descriptors_model(ds@)),
            Err(_) => resource_descriptors(resources@, 0, Seq::empty()) is None,
        },
{
    let ghost total = resource_descriptors(resources@, 0, Seq::empty());
    let mut cursor = Cursor::new(resources);
    let mut found: Vec<(u16, Vec<u8>)> = Vec::new();
    assert(descriptors_model(found@) =~= Seq::<(u16, Seq<u8>)>::empty());
    while cursor.remaining() > 0
        invariant
            cursor@.0 == resources@,
            cursor_wf(cursor@),
            total == resource_descriptors(resources@, 0, Seq::empty()),
            resource_descriptors(resources@, cursor@.1, descriptors_model(found@)) == total,
        decreases resources@.len() - cursor@.1,
    {
        let (id, data) = next_resource(&mut cursor)?;
        if id == 4000 || id == 4003 {
            let descriptor = parse_animation_resource(data)?;
            match descriptor {
                Some(payload) => {
                    let ghost before = found@;
                    let ghost payload_view = payload@;
                    found.push((id, payload));
                    assert(descriptors_model(found@) =~= descriptors_model(before).push((id, payload_view)));
                },
                None => {},
            }
        }
    }
    Ok(found)
}

/// The descriptors and layers that a PSD's header, image resources and layer-and-mask
/// section describe, or `None` where they are malformed or truncated.
pub open spec fn psd_animation_scan(b: Seq<u8>) -> Option<(Seq<(u16, Seq<u8>)>, Seq<RawLayerModel>)> {
    if b.len() < 30 || b.take(4) != tag(0x38, 0x42, 0x50, 0x53) {
        None
    } else {
        let color_end = 30 + be_u32_at(b, 26);
        if color_end + 4 > b.len() {
            None
        } else {
            let resources_start = color_end + 4;
            let resources_end = resources_start + be_u32_at(b, color_end);
            if resources_end + 4 > b.len() {
                None
            } else {
                let layers_start = resources_end + 4;
                let layers_end = layers_start + be_u32_at(b, resources_end);
                if layers_end > b.len() {
                    None
                } else {
                    match (resource_descriptors(b.subrange(resources_start, resources_end), 0, Seq::empty()),
                        layer_mask_layers(b.subrange(layers_start, layers_end))) {
                        (Some(ds), Some(ls)) => Some((ds, ls)),
                        _ => None,
                    }
                }
            }
        }
    }
}

/// Scans only the PSD sections needed by the animation compatibility layer.
pub fn scan_psd_metadata(bytes: &[u8]) -> (scanned: Result<ScanResult, AnimationParseError>)
    ensures
        match scanned {
            Ok(r) => psd_animation_scan(bytes@) == Some((descriptors_model(r.animation_descriptors@), raw_layers_model(r.layers@)))
                && r.resource_ids@ == descriptors_model(r.animation_descriptors@).map_values(|e: (u16, Seq<u8>)| e.0),
            Err(_) => psd_animation_scan(bytes@) is None,
        },
{
    let mut cursor = Cursor::new(bytes);
    let header_ok = cursor.expect_bytes(&[0x38u8, 0x42, 0x50, 0x53], "PSD header");
    if header_ok.is_err() {
        proof {
            if bytes@.len() >= 30 {
                assert(bytes@.subrange(0, 4) == bytes@.take(4));
            }
        }
        return Err(header_ok.unwrap_err());
    }
    assert(bytes@.subrange(0, 4) == bytes@.take(4));
    cursor.skip(22, "PSD header")?;
    let color_length = cursor.u32("color mode data length")?;
    cursor.skip(color_length as usize, "color mode data")?;
    let resources_length = cursor.u32("image resources length")?;
    let resources = cursor.take(resources_length as usize, "image resources")?;
    let descriptors = scan_resources(resources)?;
    let mut resource_ids: Vec<u16> = Vec::new();
    let mut i: usize = 0;
    while i < descriptors.len()
        invariant
            i <= descriptors@.len(),
            resource_ids@ == descriptors_model(descriptors@).take(i as int).map_values(|e: (u16, Seq<u8>)| e.0),
        decreases descriptors@.len() - i,
    {
        resource_ids.push(descriptors[i].0);
        assert(descriptors_model(descriptors@).take(i as int + 1).map_values(|e: (u16, Seq<u8>)| e.0) =~= descriptors_model(descriptors@).take(i as int).map_values(|e: (u16, Seq<u8>)| e.0).push(descriptors@[i as int].0));
        i = i + 1;
    }
    assert(descriptors_model(descriptors@).take(descriptors@.len() as int) == descriptors_model(descriptors@));
    let layer_mask_length = cursor.u32("layer and mask info length")?;
    let layer_mask = cursor.take(layer_mask_length as usize, "layer and mask info")?;
    let layers = scan_layer_records(layer_mask)?;
    Ok(ScanResult { animation_descriptors: descriptors, resource_ids, layers })
}

} // verus!
