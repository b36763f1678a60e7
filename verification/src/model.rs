//! Format-neutral values shared by the readers and writers.
use vstd::prelude::*;

use crate::error::InspectionError;
use crate::photoshop_animation::{AnimationFlags, LoopMode};
use crate::text::decimal;
use vstd::string::StringExecFns;

verus! {

/// Metadata extracted during read-only inspection.
#[derive(Debug, Clone, PartialEq, Eq)]
pub struct DocumentInspection {
    /// Canvas width in pixels.
    pub width: u32,
    /// Canvas height in pixels.
    pub height: u32,
    /// Bits per channel, when declared by the source document.
    pub bits_per_channel: Option<u32>,
    /// Parser-reported color mode.
    pub color_mode: Option<String>,
    /// Number of top-level PSD layers.
    pub root_layer_count: usize,
}

/// The two layer kinds currently supported by the normalized reader.
#[derive(Debug, Clone, Copy, PartialEq, Eq, Structural)]
pub enum NormalizedLayerKind {
    /// A recursive group layer.
    Group,
    /// A layer containing owned RGBA8 pixels.
    Pixel,
}

/// An integral layer rectangle in document coordinates.
#[derive(Debug, Clone, Copy, PartialEq, Eq, Structural)]
pub struct NormalizedBounds {
    /// Inclusive left coordinate.
    pub left: i32,
    /// Inclusive top coordinate.
    pub top: i32,
    /// Exclusive right coordinate.
    pub right: i32,
    /// Exclusive bottom coordinate.
    pub bottom: i32,
}

/// Owned RGBA8 layer data and its original document-space origin.
#[derive(Debug, Clone, PartialEq, Eq)]
pub struct NormalizedPixels {
    /// Pixel width.
    pub width: u32,
    /// Pixel height.
    pub height: u32,
    /// Original document-space left coordinate.
    pub left: i32,
    /// Original document-space top coordinate.
    pub top: i32,
    /// RGBA8 bytes owned by the normalized model.
    pub data: Vec<u8>,
}

/// A normalized animation frame.
#[derive(Debug, Clone, PartialEq, Eq)]
pub struct NormalizedFrame {
    /// Zero-based frame index.
    pub index: u32,
    /// Photoshop frame identifier, absent for a synthetic static frame.
    pub source_id: Option<u32>,
    /// Source-authored duration; static PSDs intentionally keep this unset.
    pub duration_ms: Option<u32>,
    /// Source-authored disposal policy, when present.
    pub dispose: Option<String>,
}

/// A normalized loop policy.
#[derive(Debug, Clone, Copy, PartialEq, Eq, Structural)]
pub enum NormalizedLoopMode {
    /// Repeat forever.
    Infinite,
    /// Repeat the authored finite count.
    Finite(u32),
}

/// Converts an animation loop policy without retaining parser types in the model.
pub fn normalized_loop_mode(value: &LoopMode) -> (mode: NormalizedLoopMode)
    ensures
        mode == match *value {
            LoopMode::Infinite => NormalizedLoopMode::Infinite,
            LoopMode::Finite(count) => NormalizedLoopMode::Finite(count),
        },
{
    match value {
        LoopMode::Infinite => NormalizedLoopMode::Infinite,
        LoopMode::Finite(count) => NormalizedLoopMode::Finite(*count),
    }
}

/// A normalized PSD group or pixel layer, with what planning reads of it.
#[derive(Debug, PartialEq, Eq)]
pub struct NormalizedLayer {
    /// Stable source identifier assigned by Photoshop.
    pub id: u32,
    /// User-authored layer name.
    pub name: String,
    /// Layer kind.
    pub kind: NormalizedLayerKind,
    /// Layer bounds in document coordinates.
    pub bounds: NormalizedBounds,
    /// Whether the base opacity is undeclared or exactly full.
    pub full_opacity: bool,
    /// Base layer blend mode, when declared by the source.
    pub blend_mode: Option<String>,
    /// Base layer hidden state, when declared by the source.
    pub hidden: Option<bool>,
    /// Owned RGBA8 pixels for a pixel layer.
    pub pixels: Option<NormalizedPixels>,
    /// Child layers in source order. Groups own this vector; pixel layers keep it empty.
    pub children: Vec<NormalizedLayer>,
    /// Resolved enabled state per normalized frame, after source enable inheritance.
    pub frame_enabled: Vec<bool>,
    /// Base opacity on Aseprite's 8-bit scale, when declared by the source.
    pub opacity: Option<u8>,
    /// Integral per-frame layer offset, when the frame authors one.
    pub frame_offsets: Vec<Option<(i32, i32)>>,
    /// Per-frame opacity override on the 8-bit scale, when the frame authors one.
    pub frame_opacity: Vec<Option<u8>>,
}

/// Format-neutral document model used as the boundary between readers and writers.
#[derive(Debug, PartialEq, Eq)]
pub struct NormalizedDocument {
    /// Canvas dimensions in pixels.
    pub canvas: (u32, u32),
    /// Number of document channels, when declared by the source.
    pub channels: Option<u32>,
    /// Bits per channel, when declared by the source.
    pub bits_per_channel: Option<u32>,
    /// Stable lowercase color-mode name, when declared by the source.
    pub color_mode: Option<String>,
    /// Top-level layers in source order.
    pub root_layers: Vec<NormalizedLayer>,
    /// Animation frames in playback order.
    pub frames: Vec<NormalizedFrame>,
    /// Source animation loop policy, when one was authored.
    pub loop_mode: Option<NormalizedLoopMode>,
    /// Active source frame index, when one was authored.
    pub active_frame_index: Option<u32>,
    /// Image-resource IDs that carried the source animation descriptor.
    pub animation_resource_ids: Vec<u16>,
    /// Optional source animation flags.
    pub animation_frame_flags: Option<AnimationFlags>,
}

/// Whether a layer is enabled in frame `f`: a frame without a recorded state is disabled.
pub open spec fn enabled_in(layer: NormalizedLayer, f: int) -> bool {
    0 <= f < layer.frame_enabled@.len() && layer.frame_enabled@[f]
}

/// The visible pixel-layer IDs of a layer in frame `f`, in tree order, given whether its
/// ancestors are visible.
pub open spec fn visible_pixel_ids(layer: NormalizedLayer, f: int, ancestors_visible: bool) -> Seq<u32>
    decreases layer,
{
    let visible = ancestors_visible && enabled_in(layer, f);
    match layer.kind {
        NormalizedLayerKind::Group => visible_pixel_ids_in(layer.children@, f, visible),
        NormalizedLayerKind::Pixel => if visible { seq![layer.id] } else { Seq::empty() },
    }
}

/// The visible pixel-layer IDs of a list of sibling layers, in tree order.
pub open spec fn visible_pixel_ids_in(layers: Seq<NormalizedLayer>, f: int, ancestors_visible: bool) -> Seq<u32>
    decreases layers,
{
    if layers.len() == 0 {
        Seq::empty()
    } else {
        visible_pixel_ids(layers[0], f, ancestors_visible) + visible_pixel_ids_in(layers.subrange(1, layers.len() as int), f, ancestors_visible)
    }
}

impl NormalizedLayer {
    /// Returns whether this layer is enabled after applying an ancestor result.
    pub fn is_effectively_visible(&self, frame_index: usize, ancestors_visible: bool) -> (visible: bool)
        ensures
            visible == (ancestors_visible && enabled_in(*self, frame_index as int)),
    {
        ancestors_visible && frame_index < self.frame_enabled.len() && self.frame_enabled[frame_index]
    }

    /// Appends visible pixel-layer IDs for one frame in tree order.
    pub fn collect_visible_pixel_layer_ids(&self, frame_index: usize, ancestors_visible: bool, output: &mut Vec<u32>)
        ensures
            final(output)@ == old(output)@ + visible_pixel_ids(*self, frame_index as int, ancestors_visible),
        decreases self,
    {
        let visible = self.is_effectively_visible(frame_index, ancestors_visible);
        match self.kind {
            NormalizedLayerKind::Group => {
                let ghost start = output@;
                let mut i: usize = 0;
                assert(self.children@.subrange(0, self.children@.len() as int) =~= self.children@);
                while i < self.children.len()
                    invariant
                        i <= self.children@.len(),
                        visible == (ancestors_visible && enabled_in(*self, frame_index as int)),
                        self.kind == NormalizedLayerKind::Group,
                        start + visible_pixel_ids_in(self.children@, frame_index as int, visible)
                            == output@ + visible_pixel_ids_in(self.children@.subrange(i as int, self.children@.len() as int), frame_index as int, visible),
                    decreases self.children@.len() - i,
                {
                    let ghost tail = self.children@.subrange(i as int, self.children@.len() as int);
                    let ghost before = output@;
                    proof {
                        assert(tail[0] == self.children@[i as int]);
                        assert(tail.subrange(1, tail.len() as int) =~= self.children@.subrange(i as int + 1, self.children@.len() as int));
                        assert(decreases_to!(self => self.children));
                    }
                    self.children[i].collect_visible_pixel_layer_ids(frame_index, visible, output);
                    proof {
                        let head = visible_pixel_ids(self.children@[i as int], frame_index as int, visible);
                        let later = visible_pixel_ids_in(self.children@.subrange(i as int + 1, self.children@.len() as int), frame_index as int, visible);
                        assert(visible_pixel_ids_in(tail, frame_index as int, visible) == head + later);
                        assert(before + (head + later) =~= (before + head) + later);
                    }
                    i = i + 1;
                }
                proof {
                    assert(self.children@.subrange(self.children@.len() as int, self.children@.len() as int) =~= Seq::<NormalizedLayer>::empty());
                    assert(output@ + Seq::<u32>::empty() =~= output@);
                }
            },
            NormalizedLayerKind::Pixel => {
                if visible {
                    output.push(self.id);
                    proof {
                        assert(output@ =~= old(output)@ + seq![self.id]);
                    }
                } else {
                    assert(old(output)@ + Seq::<u32>::empty() =~= old(output)@);
                }
            },
        }
    }
}

/// The first layer with ID `id` in tree order, a layer before its children.
pub open spec fn layer_with_id(layers: Seq<NormalizedLayer>, id: u32) -> Option<NormalizedLayer>
    decreases layers,
{
    if layers.len() == 0 {
        None
    } else if layers[0].id == id {
        Some(layers[0])
    } else {
        match layer_with_id(layers[0].children@, id) {
            Some(found) => Some(found),
            None => layer_with_id(layers.subrange(1, layers.len() as int), id),
        }
    }
}

/// Finds a layer by its source ID, searching a layer before its children.
pub fn find_layer_in(layers: &Vec<NormalizedLayer>, id: u32) -> (found: Option<&NormalizedLayer>)
    ensures
        match found {
            Some(layer) => layer_with_id(layers@, id) == Some(*layer),
            None => layer_with_id(layers@, id) is None,
        },
    decreases layers@,
{
    let mut i: usize = 0;
    assert(layers@.subrange(0, layers@.len() as int) =~= layers@);
    while i < layers.len()
        invariant
            i <= layers@.len(),
            layer_with_id(layers@, id) == layer_with_id(layers@.subrange(i as int, layers@.len() as int), id),
        decreases layers@.len() - i,
    {
        let ghost tail = layers@.subrange(i as int, layers@.len() as int);
        proof {
            assert(tail[0] == layers@[i as int]);
            assert(tail.subrange(1, tail.len() as int) =~= layers@.subrange(i as int + 1, layers@.len() as int));
            assert(decreases_to!(layers@ => layers@[i as int]));
            assert(decreases_to!(layers@[i as int] => layers@[i as int].children));
        }
        let layer = &layers[i];
        if layer.id == id {
            return Some(layer);
        }
        match find_layer_in(&layer.children, id) {
            Some(found) => {
                return Some(found);
            },
            None => {},
        }
        i = i + 1;
    }
    assert(layers@.subrange(layers@.len() as int, layers@.len() as int) =~= Seq::<NormalizedLayer>::empty());
    None
}

impl NormalizedDocument {
    /// Finds a normalized layer by its stable source identifier.
    pub fn find_layer(&self, id: u32) -> (found: Option<&NormalizedLayer>)
        ensures
            match found {
                Some(layer) => layer_with_id(self.root_layers@, id) == Some(*layer),
                None => layer_with_id(self.root_layers@, id) is None,
            },
    {
        find_layer_in(&self.root_layers, id)
    }
}

/// The IDs of the pixel layers of a layer, in tree order.
pub open spec fn pixel_ids(layer: NormalizedLayer) -> Seq<u32>
    decreases layer,
{
    let below = pixel_ids_in(layer.children@);
    if layer.kind == NormalizedLayerKind::Pixel {
        seq![layer.id] + below
    } else {
        below
    }
}

/// The IDs of the pixel layers of a list of layers, in tree order.
pub open spec fn pixel_ids_in(layers: Seq<NormalizedLayer>) -> Seq<u32>
    decreases layers,
{
    if layers.len() == 0 {
        Seq::empty()
    } else {
        pixel_ids(layers[0]) + pixel_ids_in(layers.subrange(1, layers.len() as int))
    }
}

/// Appends every source pixel-layer ID, in tree order.
pub fn collect_pixel_layer_ids(layers: &Vec<NormalizedLayer>, output: &mut Vec<u32>)
    ensures
        final(output)@ == old(output)@ + pixel_ids_in(layers@),
    decreases layers@,
{
    let ghost start = output@;
    let mut i: usize = 0;
    assert(layers@.subrange(0, layers@.len() as int) =~= layers@);
    while i < layers.len()
        invariant
            i <= layers@.len(),
            start + pixel_ids_in(layers@) == output@ + pixel_ids_in(layers@.subrange(i as int, layers@.len() as int)),
        decreases layers@.len() - i,
    {
        let ghost tail = layers@.subrange(i as int, layers@.len() as int);
        let ghost before = output@;
        let layer = &layers[i];
        proof {
            assert(tail[0] == layers@[i as int]);
            assert(tail.subrange(1, tail.len() as int) =~= layers@.subrange(i as int + 1, layers@.len() as int));
            assert(decreases_to!(layers@ => layers@[i as int]));
            assert(decreases_to!(layers@[i as int] => layers@[i as int].children));
        }
        if layer.kind == NormalizedLayerKind::Pixel {
            output.push(layer.id);
        }
        collect_pixel_layer_ids(&layer.children, output);
        proof {
            let below = pixel_ids_in(layer.children@);
            let later = pixel_ids_in(layers@.subrange(i as int + 1, layers@.len() as int));
            assert(pixel_ids_in(tail) == pixel_ids(*layer) + later);
            if layer.kind == NormalizedLayerKind::Pixel {
                assert(before + (seq![layer.id] + below + later) =~= before.push(layer.id) + below + later);
            } else {
                assert(before + (below + later) =~= before + below + later);
            }
        }
        i = i + 1;
    }
    assert(layers@.subrange(layers@.len() as int, layers@.len() as int) =~= Seq::<NormalizedLayer>::empty());
    assert(output@ + Seq::<u32>::empty() =~= output@);
}

/// The error for inverted layer bounds.
pub open spec fn inverted_text(path: Seq<char>) -> Seq<char> {
    "layer "@ + path + " bounds are inverted"@
}

/// Validates an integral layer rectangle: its right edge may not lie left of its left
/// edge, nor its bottom above its top.
pub fn normalized_bounds(left: i32, top: i32, right: i32, bottom: i32, path: &str) -> (bounds: Result<NormalizedBounds, InspectionError>)
    ensures
        match bounds {
            Ok(b) => right >= left && bottom >= top && b == (NormalizedBounds { left, top, right, bottom }),
            Err(e) => (right < left || bottom < top) && e is Normalization && e->Normalization_0@ == inverted_text(path@),
        },
{
    if right < left || bottom < top {
        let mut message = String::new();
        message.append("layer ");
        message.append(path);
        message.append(" bounds are inverted");
        return Err(InspectionError::Normalization(message));
    }
    Ok(NormalizedBounds { left, top, right, bottom })
}

/// The error for pixel dimensions whose RGBA8 size overflows.
pub open spec fn overflow_text(path: Seq<char>) -> Seq<char> {
    "pixel dimensions overflow RGBA8 size at "@ + path
}

/// The error for pixel dimensions beyond addressable memory.
pub open spec fn unaddressable_text(path: Seq<char>) -> Seq<char> {
    "pixel dimensions exceed addressable memory at "@ + path
}

/// The error for a pixel buffer of the wrong length.
pub open spec fn length_mismatch_text(path: Seq<char>, expected: int, actual: int) -> Seq<char> {
    "pixel buffer length mismatch at "@ + path + ": expected "@ + decimal(expected) + ", got "@ + decimal(actual)
}

fn decimal_text(n: u64) -> (text: String)
    ensures
        text@ == decimal(n as int),
{
    crate::text::unsigned_text(n)
}

/// Copies and validates one parser pixel buffer as owned RGBA8 data: the buffer must hold
/// exactly four bytes per pixel.
pub fn copy_rgba8_pixels(width: u32, height: u32, data: &Vec<u8>, bounds: NormalizedBounds, path: &str) -> (pixels: Result<NormalizedPixels, InspectionError>)
    ensures
        match pixels {
            Ok(p) => data@.len() == width * height * 4 && p.width == width && p.height == height && p.left == bounds.left
                && p.top == bounds.top && p.data@ == data@,
            Err(e) => e is Normalization && if width * height * 4 > u64::MAX {
                e->Normalization_0@ == overflow_text(path@)
            } else if width * height * 4 > usize::MAX {
                e->Normalization_0@ == unaddressable_text(path@)
            } else {
                data@.len() != width * height * 4 && e->Normalization_0@ == length_mismatch_text(path@, width * height * 4, data@.len() as int)
            },
        },
{
    assert((width as int) * (height as int) <= 0xffff_fffe_0000_0001) by (nonlinear_arith)
        requires
            width <= 0xffff_ffff,
            height <= 0xffff_ffff,
    ;
    let area: u64 = (width as u64) * (height as u64);
    if area > u64::MAX / 4 {
        let mut message = String::new();
        message.append("pixel dimensions overflow RGBA8 size at ");
        message.append(path);
        return Err(InspectionError::Normalization(message));
    }
    let expected: u64 = area * 4;
    if expected > usize::MAX as u64 {
        let mut message = String::new();
        message.append("pixel dimensions exceed addressable memory at ");
        message.append(path);
        return Err(InspectionError::Normalization(message));
    }
    if data.len() as u64 != expected {
        let mut message = String::new();
        message.append("pixel buffer length mismatch at ");
        message.append(path);
        message.append(": expected ");
        message.append(decimal_text(expected).as_str());
        message.append(", got ");
        message.append(decimal_text(data.len() as u64).as_str());
        return Err(InspectionError::Normalization(message));
    }
    let mut copy: Vec<u8> = Vec::new();
    let mut i: usize = 0;
    while i < data.len()
        invariant
            i <= data@.len(),
            copy@ == data@.take(i as int),
        decreases data@.len() - i,
    {
        copy.push(data[i]);
        assert(data@.take(i as int + 1) =~= data@.take(i as int).push(data@[i as int]));
        i = i + 1;
    }
    assert(data@.take(data@.len() as int) =~= data@);
    Ok(NormalizedPixels { width, height, left: bounds.left, top: bounds.top, data: copy })
}

/// Whether two layers agree on everything but their children and per-frame states.
pub open spec fn same_layer_fields(after: NormalizedLayer, before: NormalizedLayer) -> bool {
    &&& after.id == before.id
    &&& after.name == before.name
    &&& after.kind == before.kind
    &&& after.bounds == before.bounds
    &&& after.full_opacity == before.full_opacity
    &&& after.blend_mode == before.blend_mode
    &&& after.hidden == before.hidden
    &&& after.pixels == before.pixels
    &&& after.opacity == before.opacity
    &&& after.frame_offsets == before.frame_offsets
    &&& after.frame_opacity == before.frame_opacity
}

/// Whether `after` is `before` with every layer given one static frame, enabled unless
/// the layer is hidden.
pub open spec fn static_layer(after: NormalizedLayer, before: NormalizedLayer) -> bool
    decreases before,
{
    &&& same_layer_fields(after, before)
    &&& after.frame_enabled@ == seq![!(before.hidden == Some(true))]
    &&& static_layers(after.children@, before.children@)
}

/// Whether every layer of `after` is the static form of the same layer of `before`.
pub open spec fn static_layers(after: Seq<NormalizedLayer>, before: Seq<NormalizedLayer>) -> bool
    decreases before,
{
    &&& after.len() == before.len()
    &&& before.len() > 0 ==> static_layer(after[0], before[0])
        && static_layers(after.subrange(1, after.len() as int), before.subrange(1, before.len() as int))
}

proof fn lemma_static_layers_index(after: Seq<NormalizedLayer>, before: Seq<NormalizedLayer>)
    ensures
        static_layers(after, before) <==> (after.len() == before.len()
            && forall|i: int| 0 <= i < before.len() ==> #[trigger] static_layer(after[i], before[i])),
    decreases before.len(),
{
    if before.len() > 0 && after.len() == before.len() {
        let a = after.subrange(1, after.len() as int);
        let b = before.subrange(1, before.len() as int);
        lemma_static_layers_index(a, b);
        if static_layers(after, before) {
            assert forall|i: int| 0 <= i < before.len() implies #[trigger] static_layer(after[i], before[i]) by {
                if i > 0 {
                    assert(a[i - 1] == after[i] && b[i - 1] == before[i]);
                }
            }
        }
        if forall|i: int| 0 <= i < before.len() ==> #[trigger] static_layer(after[i], before[i]) {
            assert(static_layer(after[0], before[0]));
            assert forall|i: int| 0 <= i < b.len() implies #[trigger] static_layer(a[i], b[i]) by {
                assert(a[i] == after[i + 1] && b[i] == before[i + 1]);
            }
        }
    }
}

/// Gives every layer of a static document one frame, enabled unless the layer is hidden.
pub fn apply_static_states(layers: &mut Vec<NormalizedLayer>)
    ensures
        static_layers(final(layers)@, old(layers)@),
    decreases old(layers)@,
{
    let ghost before = layers@;
    let mut i: usize = 0;
    while i < layers.len()
        invariant
            i <= layers@.len(),
            layers@.len() == before.len(),
            before == old(layers)@,
            forall|q: int| 0 <= q < i ==> #[trigger] static_layer(layers@[q], before[q]),
            forall|q: int| i <= q < before.len() ==> #[trigger] layers@[q] == before[q],
        decreases layers@.len() - i,
    {
        let layer = &mut layers[i];
        let enabled = !(layer.hidden == Some(true));
        layer.frame_enabled = vec![enabled];
        proof {
            assert(decreases_to!(before => before[i as int]));
            assert(decreases_to!(before[i as int] => before[i as int].children));
        }
        apply_static_states(&mut layer.children);
        proof {
            assert(layer.frame_enabled@ =~= seq![!(before[i as int].hidden == Some(true))]);
        }
        i = i + 1;
    }
    proof {
        lemma_static_layers_index(layers@, before);
    }
}

/// The per-frame enabled states recorded first for layer `id`, searching from `from`.
pub open spec fn state_of(states: Seq<(u32, Vec<bool>)>, id: u32, from: int) -> Option<Seq<bool>>
    decreases states.len() - from,
{
    if from < 0 || from >= states.len() {
        None
    } else if states[from].0 == id {
        Some(states[from].1@)
    } else {
        state_of(states, id, from + 1)
    }
}

/// Whether a layer and every layer below it has a state of `count` frames.
pub open spec fn state_covered(layer: NormalizedLayer, states: Seq<(u32, Vec<bool>)>, count: nat) -> bool
    decreases layer,
{
    &&& state_of(states, layer.id, 0) matches Some(s) && s.len() == count
    &&& states_covered(layer.children@, states, count)
}

/// Whether every layer of a list, and below it, has a state of `count` frames.
pub open spec fn states_covered(layers: Seq<NormalizedLayer>, states: Seq<(u32, Vec<bool>)>, count: nat) -> bool
    decreases layers,
{
    layers.len() > 0 ==> state_covered(layers[0], states, count) && states_covered(layers.subrange(1, layers.len() as int), states, count)
}

/// Whether `after` is `before` with every layer's frames enabled as its state says.
pub open spec fn animated_layer(after: NormalizedLayer, before: NormalizedLayer, states: Seq<(u32, Vec<bool>)>) -> bool
    decreases before,
{
    &&& same_layer_fields(after, before)
    &&& state_of(states, before.id, 0) == Some(after.frame_enabled@)
    &&& animated_layers(after.children@, before.children@, states)
}

/// Whether every layer of `after` is the animated form of the same layer of `before`.
pub open spec fn animated_layers(after: Seq<NormalizedLayer>, before: Seq<NormalizedLayer>, states: Seq<(u32, Vec<bool>)>) -> bool
    decreases before,
{
    &&& after.len() == before.len()
    &&& before.len() > 0 ==> animated_layer(after[0], before[0], states)
        && animated_layers(after.subrange(1, after.len() as int), before.subrange(1, before.len() as int), states)
}

proof fn lemma_animated_layers_index(after: Seq<NormalizedLayer>, before: Seq<NormalizedLayer>, states: Seq<(u32, Vec<bool>)>)
    ensures
        animated_layers(after, before, states) <==> (after.len() == before.len()
            && forall|i: int| 0 <= i < before.len() ==> #[trigger] animated_layer(after[i], before[i], states)),
    decreases before.len(),
{
    if before.len() > 0 && after.len() == before.len() {
        let a = after.subrange(1, after.len() as int);
        let b = before.subrange(1, before.len() as int);
        lemma_animated_layers_index(a, b, states);
        if animated_layers(after, before, states) {
            assert forall|i: int| 0 <= i < before.len() implies #[trigger] animated_layer(after[i], before[i], states) by {
                if i > 0 {
                    assert(a[i - 1] == after[i] && b[i - 1] == before[i]);
                }
            }
        }
        if forall|i: int| 0 <= i < before.len() ==> #[trigger] animated_layer(after[i], before[i], states) {
            assert(animated_layer(after[0], before[0], states));
            assert forall|i: int| 0 <= i < b.len() implies #[trigger] animated_layer(a[i], b[i], states) by {
                assert(a[i] == after[i + 1] && b[i] == before[i + 1]);
            }
        }
    }
}

proof fn lemma_states_covered_index(layers: Seq<NormalizedLayer>, states: Seq<(u32, Vec<bool>)>, count: nat)
    ensures
        states_covered(layers, states, count) <==> forall|i: int| 0 <= i < layers.len() ==> #[trigger] state_covered(layers[i], states, count),
    decreases layers.len(),
{
    if layers.len() > 0 {
        let rest = layers.subrange(1, layers.len() as int);
        lemma_states_covered_index(rest, states, count);
        if forall|i: int| 0 <= i < layers.len() ==> #[trigger] state_covered(layers[i], states, count) {
            assert(state_covered(layers[0], states, count));
            assert forall|i: int| 0 <= i < rest.len() implies #[trigger] state_covered(rest[i], states, count) by {
                assert(rest[i] == layers[i + 1]);
            }
        }
        if states_covered(layers, states, count) {
            assert forall|i: int| 0 <= i < layers.len() implies #[trigger] state_covered(layers[i], states, count) by {
                if i > 0 {
                    assert(rest[i - 1] == layers[i]);
                }
            }
        }
    }
}

fn find_state(states: &Vec<(u32, Vec<bool>)>, id: u32) -> (found: Option<usize>)
    ensures
        match found {
            Some(k) => k < states@.len() && state_of(states@, id, 0) == Some(states@[k as int].1@),
            None => state_of(states@, id, 0) is None,
        },
{
    let mut k: usize = 0;
    while k < states.len()
        invariant
            k <= states@.len(),
            state_of(states@, id, 0) == state_of(states@, id, k as int),
        decreases states@.len() - k,
    {
        if states[k].0 == id {
            return Some(k);
        }
        k = k + 1;
    }
    None
}

fn copy_flags(source: &Vec<bool>) -> (copy: Vec<bool>)
    ensures
        copy@ == source@,
{
    let mut copy: Vec<bool> = Vec::new();
    let mut i: usize = 0;
    while i < source.len()
        invariant
            i <= source@.len(),
            copy@ == source@.take(i as int),
        decreases source@.len() - i,
    {
        copy.push(source[i]);
        assert(source@.take(i as int + 1) =~= source@.take(i as int).push(source@[i as int]));
        i = i + 1;
    }
    assert(source@.take(source@.len() as int) =~= source@);
    copy
}

#[verifier::external_body]
fn missing_state_message(id: u32) -> (message: String)
    ensures
        message@ == "animation state missing for normalized layer "@ + decimal(id as int),
{
    format!("animation state missing for normalized layer {}", id)
}

#[verifier::external_body]
fn state_length_message(id: u32, expected: usize, actual: usize) -> (message: String)
    ensures
        message@ == "animation state length mismatch for layer "@ + decimal(id as int) + ": expected "@
            + decimal(expected as int) + ", got "@ + decimal(actual as int),
{
    format!("animation state length mismatch for layer {}: expected {}, got {}", id, expected, actual)
}

/// Applies source animation states to the layer tree: every layer takes the per-frame
/// enabled states recorded for its ID. A layer without a state, or with a state of another
/// frame count, is an error.
pub fn apply_animation_states(layers: &mut Vec<NormalizedLayer>, states: &Vec<(u32, Vec<bool>)>, frame_count: usize) -> (applied: Result<(), InspectionError>)
    ensures
        applied is Ok <==> states_covered(old(layers)@, states@, frame_count as nat),
        applied is Ok ==> animated_layers(final(layers)@, old(layers)@, states@),
        applied matches Err(e) ==> e is Normalization,
    decreases old(layers)@,
{
    let ghost before = layers@;
    let mut i: usize = 0;
    proof {
        lemma_states_covered_index(before, states@, frame_count as nat);
    }
    while i < layers.len()
        invariant
            i <= layers@.len(),
            layers@.len() == before.len(),
            before == old(layers)@,
            forall|q: int| 0 <= q < i ==> #[trigger] animated_layer(layers@[q], before[q], states@),
            forall|q: int| 0 <= q < i ==> #[trigger] state_covered(before[q], states@, frame_count as nat),
            forall|q: int| i <= q < before.len() ==> #[trigger] layers@[q] == before[q],
            states_covered(before, states@, frame_count as nat) <==> forall|q: int| 0 <= q < before.len() ==> #[trigger] state_covered(before[q], states@, frame_count as nat),
        decreases layers@.len() - i,
    {
        let id = layers[i].id;
        let k = match find_state(states, id) {
            Some(k) => k,
            None => {
                assert(!state_covered(before[i as int], states@, frame_count as nat));
                return Err(InspectionError::Normalization(missing_state_message(id)));
            },
        };
        if states[k].1.len() != frame_count {
            assert(!state_covered(before[i as int], states@, frame_count as nat));
            return Err(InspectionError::Normalization(state_length_message(id, frame_count, states[k].1.len())));
        }
        let flags = copy_flags(&states[k].1);
        let layer = &mut layers[i];
        layer.frame_enabled = flags;
        proof {
            assert(decreases_to!(before => before[i as int]));
            assert(decreases_to!(before[i as int] => before[i as int].children));
        }
        match apply_animation_states(&mut layer.children, states, frame_count) {
            Ok(()) => {},
            Err(e) => {
                assert(!state_covered(before[i as int], states@, frame_count as nat));
                return Err(e);
            },
        }
        i = i + 1;
    }
    proof {
        lemma_animated_layers_index(layers@, before, states@);
    }
    Ok(())
}

} // verus!
