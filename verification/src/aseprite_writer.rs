//! The decisions of the Aseprite serializer that do not depend on the file being built:
//! frame timeline limits, loop repeat counts, warning collection and identical-cel reuse.
use vstd::prelude::*;

use crate::information_loss::{InformationLocation, InformationLossCode, LossDisposition};
use crate::model::{NormalizedDocument, NormalizedFrame, NormalizedLayer, NormalizedLoopMode};
use crate::text::decimal;
use vstd::string::StringExecFns;

verus! {

/// Serialization default used only when a static normalized frame has no source duration.
pub const DEFAULT_FRAME_DURATION_MS: u16 = 100;

/// Summarizes identical-pixel cel reuse performed by the serializer.
#[derive(Debug, Clone, PartialEq, Eq)]
pub struct CelReuseReport {
    /// Number of cels containing their own pixel data.
    pub pixel_cel_count: usize,
    /// Number of cels linked to an earlier cel on the same layer.
    pub linked_cel_count: usize,
}

impl Default for CelReuseReport {
    /// A report of no cels.
    fn default() -> (report: Self)
        ensures
            report.pixel_cel_count == 0,
            report.linked_cel_count == 0,
    {
        CelReuseReport { pixel_cel_count: 0, linked_cel_count: 0 }
    }
}

/// A non-fatal writer warning with its source loss classification and location.
#[derive(Debug, Clone, PartialEq, Eq)]
pub struct WriterWarning {
    /// Human-readable warning detail retained in the conversion report.
    pub message: String,
    /// Stable report code for this warning.
    pub code: InformationLossCode,
    /// Report disposition for this warning.
    pub disposition: LossDisposition,
    /// Source location affected by this warning.
    pub location: InformationLocation,
    /// Whether the warning can change rendered pixels.
    pub visual_impact: bool,
    /// Whether the warning can change editability.
    pub editability_impact: bool,
}

/// Bytes and warnings produced by the Aseprite serializer.
#[derive(Debug, PartialEq, Eq)]
pub struct EncodedAseprite {
    /// Complete Aseprite file bytes.
    pub bytes: Vec<u8>,
    /// Non-fatal compatibility warnings collected during mapping.
    pub warnings: Vec<String>,
    /// Structured warning metadata used to build the information-loss report.
    pub warning_details: Vec<WriterWarning>,
    /// Counts of ordinary and linked cels emitted by the serializer.
    pub cel_reuse: CelReuseReport,
}

/// Errors raised while mapping the normalized model to Aseprite.
#[derive(Debug, PartialEq, Eq)]
pub enum WriterError {
    /// A normalized frame index is not the expected contiguous playback index.
    InvalidFrameIndex { expected: usize, actual: u32 },
    /// A normalized integer cannot be represented by the Aseprite format.
    FormatLimit { field: String, value: i64, max: i64 },
    /// A normalized opacity is outside the supported 0.0..=1.0 range.
    InvalidOpacity { field: String, value: String },
    /// A normalized pixel buffer is inconsistent with its dimensions.
    InvalidPixels { layer_id: u32, message: String },
    /// A frame-local coordinate is not an integral value representable by the model.
    InvalidCoordinate { field: String, value: String },
    /// The underlying Aseprite library rejected a write operation.
    Aseprite(String),
}

/// Collects writer warnings while keeping their presentation and source metadata together.
#[derive(Debug)]
pub struct WarningCollector {
    /// The warnings in the order they were recorded.
    pub entries: Vec<WriterWarning>,
}

impl WarningCollector {
    /// An empty collector.
    pub fn new() -> (collector: Self)
        ensures
            collector.entries@.len() == 0,
    {
        WarningCollector { entries: Vec::new() }
    }

    /// Records one structured writer warning.
    pub fn push(
        &mut self,
        code: InformationLossCode,
        disposition: LossDisposition,
        location: InformationLocation,
        message: String,
        visual_impact: bool,
        editability_impact: bool,
    )
        ensures
            final(self).entries@ == old(self).entries@.push(
                WriterWarning { message, code, disposition, location, visual_impact, editability_impact },
            ),
    {
        self.entries.push(WriterWarning { message, code, disposition, location, visual_impact, editability_impact });
    }

    /// Splits structured warnings into their texts and the warnings themselves.
    pub fn into_parts(self) -> (parts: (Vec<String>, Vec<WriterWarning>))
        ensures
            parts.1@ == self.entries@,
            parts.0@.len() == self.entries@.len(),
            forall|i: int| 0 <= i < self.entries@.len() ==> #[trigger] parts.0@[i] == self.entries@[i].message,
    {
        let mut messages: Vec<String> = Vec::new();
        let mut i: usize = 0;
        while i < self.entries.len()
            invariant
                i <= self.entries@.len(),
                messages@.len() == i,
                forall|k: int| 0 <= k < i ==> #[trigger] messages@[k] == self.entries@[k].message,
            decreases self.entries@.len() - i,
        {
            messages.push(self.entries[i].message.clone());
            i = i + 1;
        }
        (messages, self.entries)
    }
}

/// The field and value a format limit error names.
pub open spec fn format_limit(e: WriterError, field: Seq<char>, value: int, max: int) -> bool {
    e matches WriterError::FormatLimit { field: f, value: v, max: m } && f@ == field && v == value && m == max
}

/// Converts a model value to an Aseprite 16-bit value.
pub fn u16_value(field: &str, value: u32) -> (converted: Result<u16, WriterError>)
    ensures
        match converted {
            Ok(v) => value <= u16::MAX && v == value,
            Err(e) => value > u16::MAX && format_limit(e, field@, value as int, u16::MAX as int),
        },
{
    if value <= 65535 {
        Ok(value as u16)
    } else {
        Err(WriterError::FormatLimit { field: field.to_owned(), value: value as i64, max: 65535 })
    }
}

/// Converts a model coordinate to an Aseprite signed 16-bit coordinate.
pub fn i16_value(field: &str, value: i32) -> (converted: Result<i16, WriterError>)
    ensures
        match converted {
            Ok(v) => i16::MIN <= value <= i16::MAX && v == value,
            Err(e) => !(i16::MIN <= value <= i16::MAX) && format_limit(e, field@, value as int, i16::MAX as int),
        },
{
    if value >= -32768 && value <= 32767 {
        Ok(value as i16)
    } else {
        Err(WriterError::FormatLimit { field: field.to_owned(), value: value as i64, max: 32767 })
    }
}

/// The duration a frame is written with: its source duration, or the default.
pub open spec fn frame_duration(frame: NormalizedFrame) -> int {
    match frame.duration_ms {
        Some(d) => d as int,
        None => DEFAULT_FRAME_DURATION_MS as int,
    }
}

/// Frame `i` is the first that breaks the timeline, and `e` reports it: a frame index out
/// of place, or a duration beyond sixteen bits.
pub open spec fn timeline_fault(frames: Seq<NormalizedFrame>, i: int, e: WriterError) -> bool {
    &&& 0 <= i < frames.len()
    &&& forall|k: int| 0 <= k < i ==> #[trigger] frames[k].index == k && frame_duration(frames[k]) <= u16::MAX
    &&& if frames[i].index != i {
        e == WriterError::InvalidFrameIndex { expected: i as usize, actual: frames[i].index }
    } else {
        frame_duration(frames[i]) > u16::MAX && format_limit(e, "frame duration"@, frame_duration(frames[i]), u16::MAX as int)
    }
}

/// Checks the frame timeline of a document and gives the duration of every frame: there
/// is at least one frame, frame indices run from zero without gaps, and every duration
/// fits sixteen bits. The first frame that breaks this is reported.
pub fn frame_durations(frames: &Vec<NormalizedFrame>) -> (durations: Result<Vec<u16>, WriterError>)
    ensures
        match durations {
            Ok(ds) => frames@.len() > 0 && ds@.len() == frames@.len() && forall|i: int|
                0 <= i < frames@.len() ==> {
                    &&& frames@[i].index == i
                    &&& #[trigger] ds@[i] == frame_duration(frames@[i])
                },
            Err(e) => (frames@.len() == 0 && e is Aseprite) || exists|i: int| #[trigger] timeline_fault(frames@, i, e),
        },
{
    if frames.len() == 0 {
        return Err(WriterError::Aseprite("normalized document has no frames".to_owned()));
    }
    let mut durations: Vec<u16> = Vec::new();
    let mut i: usize = 0;
    while i < frames.len()
        invariant
            i <= frames@.len(),
            frames@.len() > 0,
            durations@.len() == i,
            forall|k: int| 0 <= k < i ==> #[trigger] frames@[k].index == k && frame_duration(frames@[k]) <= u16::MAX,
            forall|k: int| 0 <= k < i ==> #[trigger] durations@[k] == frame_duration(frames@[k]),
        decreases frames@.len() - i,
    {
        let frame = &frames[i];
        if i > u32::MAX as usize || frame.index != i as u32 {
            let e = WriterError::InvalidFrameIndex { expected: i, actual: frame.index };
            assert(timeline_fault(frames@, i as int, e));
            return Err(e);
        }
        let duration: u32 = match frame.duration_ms {
            Some(d) => d,
            None => DEFAULT_FRAME_DURATION_MS as u32,
        };
        assert(duration == frame_duration(frames@[i as int]));
        let converted = u16_value("frame duration", duration);
        match converted {
            Ok(v) => {
                durations.push(v);
                assert(frames@[i as int].index == i);
                assert(frame_duration(frames@[i as int]) <= u16::MAX);
                assert forall|k: int| 0 <= k < i + 1 implies #[trigger] frames@[k].index == k && frame_duration(frames@[k]) <= u16::MAX by {
                    if k < i {
                        assert(frames@[k].index == k);
                    }
                }
            },
            Err(e) => {
                assert(timeline_fault(frames@, i as int, e));
                return Err(e);
            },
        }
        i = i + 1;
    }
    Ok(durations)
}

/// The repeat count of the animation loop tag: zero for an endless loop.
pub fn loop_repeat(mode: &NormalizedLoopMode) -> (repeat: Result<u16, WriterError>)
    ensures
        match *mode {
            NormalizedLoopMode::Infinite => repeat == Ok::<u16, WriterError>(0u16),
            NormalizedLoopMode::Finite(count) => match repeat {
                Ok(v) => count <= u16::MAX && v == count,
                Err(e) => count > u16::MAX && format_limit(e, "loop repeat count"@, count as int, u16::MAX as int),
            },
        },
{
    match mode {
        NormalizedLoopMode::Infinite => Ok(0),
        NormalizedLoopMode::Finite(count) => u16_value("loop repeat count", *count),
    }
}

/// The 64-bit FNV-1a hash of the first `n` bytes.
pub open spec fn fnv1a_hash(bytes: Seq<u8>, n: int) -> u64
    decreases n,
{
    if n <= 0 {
        0xcbf29ce484222325u64
    } else {
        (fnv1a_hash(bytes, n - 1) ^ (bytes[n - 1] as u64)).wrapping_mul(0x100000001b3u64)
    }
}

/// Computes the FNV-1a hash of a pixel buffer.
pub fn fnv1a(bytes: &[u8]) -> (hash: u64)
    ensures
        hash == fnv1a_hash(bytes@, bytes@.len() as int),
{
    let mut hash: u64 = 0xcbf29ce484222325;
    let mut i: usize = 0;
    while i < bytes.len()
        invariant
            i <= bytes@.len(),
            hash == fnv1a_hash(bytes@, i as int),
        decreases bytes@.len() - i,
    {
        hash = (hash ^ (bytes[i] as u64)).wrapping_mul(0x100000001b3);
        i = i + 1;
    }
    hash
}

/// The path segment of a layer: its name, or `<unnamed>` when it has none.
pub open spec fn path_segment(layer: NormalizedLayer) -> Seq<char> {
    if layer.name@.len() == 0 { "<unnamed>"@ } else { layer.name@ }
}

/// The path of a layer below a parent path: the parent, a slash and the segment; only the
/// segment below no parent or an empty one.
pub open spec fn child_path(parent: Option<Seq<char>>, layer: NormalizedLayer) -> Seq<char> {
    match parent {
        Some(p) => if p.len() > 0 { p + "/"@ + path_segment(layer) } else { path_segment(layer) },
        None => path_segment(layer),
    }
}

/// Builds the slash-separated source path of a layer.
pub fn layer_path(parent: Option<&str>, layer: &NormalizedLayer) -> (path: String)
    ensures
        path@ == child_path(match parent { Some(p) => Some(p@), None => None }, *layer),
{
    let segment: &str = if layer.name.as_str().is_empty() { "<unnamed>" } else { layer.name.as_str() };
    let mut path = String::new();
    match parent {
        Some(p) => {
            if !p.is_empty() {
                path.append(p);
                path.append("/");
            }
        },
        None => {},
    }
    path.append(segment);
    path
}

/// Builds a location for a normalized source layer.
pub fn layer_location(path: &str, layer_id: u32) -> (location: InformationLocation)
    ensures
        location.layer_id == Some(layer_id),
        location.path@ == path@,
{
    InformationLocation { layer_id: Some(layer_id), path: path.to_string() }
}

/// The location of the first layer with ID `id` below `parent`, a layer before its
/// children, with its path.
pub open spec fn located(layers: Seq<NormalizedLayer>, parent: Option<Seq<char>>, id: u32) -> Option<Seq<char>>
    decreases layers,
{
    if layers.len() == 0 {
        None
    } else {
        let path = child_path(parent, layers[0]);
        if layers[0].id == id {
            Some(path)
        } else {
            match located(layers[0].children@, Some(path), id) {
                Some(found) => Some(found),
                None => located(layers.subrange(1, layers.len() as int), parent, id),
            }
        }
    }
}

fn find_location(layers: &Vec<NormalizedLayer>, parent: Option<&str>, layer_id: u32) -> (found: Option<InformationLocation>)
    ensures
        match found {
            Some(location) => located(layers@, match parent { Some(p) => Some(p@), None => None }, layer_id) == Some(location.path@)
                && location.layer_id == Some(layer_id),
            None => located(layers@, match parent { Some(p) => Some(p@), None => None }, layer_id) is None,
        },
    decreases layers@,
{
    let ghost parent_view = match parent { Some(p) => Some(p@), None => None };
    let mut i: usize = 0;
    assert(layers@.subrange(0, layers@.len() as int) =~= layers@);
    while i < layers.len()
        invariant
            i <= layers@.len(),
            parent_view == match parent { Some(p) => Some(p@), None => None::<Seq<char>> },
            located(layers@, parent_view, layer_id) == located(layers@.subrange(i as int, layers@.len() as int), parent_view, layer_id),
        decreases layers@.len() - i,
    {
        let ghost tail = layers@.subrange(i as int, layers@.len() as int);
        proof {
            assert(tail[0] == layers@[i as int]);
            assert(tail.subrange(1, tail.len() as int) =~= layers@.subrange(i as int + 1, layers@.len() as int));
            assert(decreases_to!(layers@ => layers@[i as int]));
            assert(decreases_to!(layers@[i as int] => layers@[i as int].children));
        }
        let layer = &layers[i];
        let path = layer_path(parent, layer);
        if layer.id == layer_id {
            return Some(layer_location(path.as_str(), layer.id));
        }
        match find_location(&layer.children, Some(path.as_str()), layer_id) {
            Some(found) => {
                return Some(found);
            },
            None => {},
        }
        i = i + 1;
    }
    assert(layers@.subrange(layers@.len() as int, layers@.len() as int) =~= Seq::<NormalizedLayer>::empty());
    None
}

/// The placeholder path of a layer that the document does not hold.
pub open spec fn unknown_path(layer_id: u32) -> Seq<char> {
    "<unknown:"@ + decimal(layer_id as int) + ">"@
}

#[verifier::external_body]
fn unknown_layer_path(layer_id: u32) -> (path: String)
    ensures
        path@ == unknown_path(layer_id),
{
    format!("<unknown:{}>", layer_id)
}

/// Finds a normalized source layer location by its stable layer identifier; a layer the
/// document does not hold gets a placeholder path.
pub fn find_layer_location(document: &NormalizedDocument, layer_id: u32) -> (location: InformationLocation)
    ensures
        location.layer_id == Some(layer_id),
        location.path@ == match located(document.root_layers@, None, layer_id) {
            Some(path) => path,
            None => unknown_path(layer_id),
        },
{
    match find_location(&document.root_layers, None, layer_id) {
        Some(found) => found,
        None => {
            let path = unknown_layer_path(layer_id);
            layer_location(path.as_str(), layer_id)
        },
    }
}

} // verus!
