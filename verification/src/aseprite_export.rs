//! Mapping the cels of one Aseprite pixel layer onto normalized PSD layers: one static
//! pixel layer when every cel holds the same pixels, else one group holding a static
//! layer per distinct cel image, shown in exactly the frames that use it.
use vstd::prelude::*;

use crate::information_loss::{entry_has_key, first_entry_with_key, InformationLocation, InformationLossCode, InformationLossReport, InformationLoss, LossDisposition};
use crate::model::{NormalizedBounds, NormalizedDocument, NormalizedFrame, NormalizedLayer, NormalizedLayerKind, NormalizedLoopMode, NormalizedPixels};
use crate::photoshop_animation::AnimationFlags;
use crate::text::{append_unsigned, decimal, unsigned_decimal};
use crate::error::ExportError;
use crate::aseprite_file::{ase_canvas, ase_frames, file_canvas, file_frame_durations, ase_cels, ase_layer_blend, ase_layers, layer_blend, layer_header, normal_layer, stored_cel, AseLayer, FileBlend, StoredCel, ase_color_mode, ase_palette, ase_pixel_bytes, ase_transparent_index, file_color_mode, file_palette, file_transparent_index, pixel_bytes, AseColorMode};
use aseprite::{AsepriteFile, Pixels};
use vstd::string::StringExecFns;

verus! {

/// One cel of an Aseprite pixel layer as owned RGBA8 pixels and its placement.
#[derive(Debug)]
pub struct CelSample {
    /// RGBA8 bytes, four per pixel.
    pub pixels: Vec<u8>,
    /// Pixel width.
    pub width: u16,
    /// Pixel height.
    pub height: u16,
    /// Cel origin x.
    pub x: i16,
    /// Cel origin y.
    pub y: i16,
    /// Cel opacity.
    pub opacity: u8,
    /// Cel Z-Index.
    pub z_index: i16,
}

/// A cel sample as values: pixels, width, height, x, y, opacity, Z-Index.
pub type SampleView = (Seq<u8>, u16, u16, i16, i16, u8, i16);

/// The values of a cel sample.
pub open spec fn sample_view(sample: CelSample) -> SampleView {
    (sample.pixels@, sample.width, sample.height, sample.x, sample.y, sample.opacity, sample.z_index)
}

/// The values of the cels of every frame.
pub open spec fn sample_views(samples: Seq<Option<CelSample>>) -> Seq<Option<SampleView>> {
    samples.map_values(|sample: Option<CelSample>| match sample {
        Some(s) => Some(sample_view(s)),
        None => None,
    })
}

/// Whether two cels hold the same image: same size and same pixels.
pub open spec fn same_image(a: SampleView, b: SampleView) -> bool {
    a.0 == b.0 && a.1 == b.1 && a.2 == b.2
}

/// The index of the first variant holding the image of a cel, or -1.
pub open spec fn first_same(variants: Seq<SampleView>, cel: SampleView) -> int
    decreases variants.len(),
{
    if variants.len() == 0 {
        -1
    } else {
        let earlier = first_same(variants.drop_last(), cel);
        if earlier >= 0 {
            earlier
        } else if same_image(variants.last(), cel) {
            variants.len() - 1
        } else {
            -1
        }
    }
}

/// The distinct cel images of a layer, in the order of the frames that first show them.
pub open spec fn variants_of(cels: Seq<Option<SampleView>>) -> Seq<SampleView>
    decreases cels.len(),
{
    if cels.len() == 0 {
        Seq::empty()
    } else {
        let earlier = variants_of(cels.drop_last());
        match cels.last() {
            Some(cel) => if first_same(earlier, cel) >= 0 {
                earlier
            } else {
                earlier.push(cel)
            },
            None => earlier,
        }
    }
}

/// What a cel shows given the variants: the index of its image, its position and opacity.
pub open spec fn occ_with(cel: Option<SampleView>, variants: Seq<SampleView>) -> Option<(usize, i16, i16, u8)> {
    match cel {
        Some(c) => Some((first_same(variants, c) as usize, c.3, c.4, c.5)),
        None => None,
    }
}

/// What frame `f` shows of a layer: the variant of its cel, with the cel's position and
/// opacity, or nothing without a cel.
pub open spec fn occurrence(cels: Seq<Option<SampleView>>, f: int) -> Option<(usize, i16, i16, u8)> {
    occ_with(cels[f], variants_of(cels))
}

/// The number of frames whose cel has a Z-Index other than zero.
pub open spec fn z_index_cels(cels: Seq<Option<SampleView>>) -> nat
    decreases cels.len(),
{
    if cels.len() == 0 {
        0
    } else {
        z_index_cels(cels.drop_last()) + match cels.last() {
            Some(cel) => if cel.6 != 0 { 1nat } else { 0nat },
            None => 0nat,
        }
    }
}

/// How many occurrences a report has counted under a code and disposition.
pub open spec fn loss_count(entries: Seq<InformationLoss>, code: InformationLossCode, disposition: LossDisposition) -> int {
    match first_entry_with_key(entries, code, disposition) {
        Some(index) => entries[index].count as int,
        None => 0,
    }
}

/// Whether a frame's occurrence shows variant `k`.
pub open spec fn shows(occurrence: Option<(usize, i16, i16, u8)>, k: int) -> bool {
    occurrence is Some && (occurrence->0).0 == k
}

/// The offset of a frame showing variant `k` from the variant's origin, `None` elsewhere.
pub open spec fn shifted(occurrence: Option<(usize, i16, i16, u8)>, k: int, variant: SampleView) -> Option<(i32, i32)> {
    if shows(occurrence, k) {
        Some((((occurrence->0).1 - variant.3) as i32, ((occurrence->0).2 - variant.4) as i32))
    } else {
        None
    }
}

/// The opacity of a frame showing variant `k`, `None` elsewhere.
pub open spec fn faded(occurrence: Option<(usize, i16, i16, u8)>, k: int) -> Option<u8> {
    if shows(occurrence, k) { Some((occurrence->0).3) } else { None }
}

/// Whether `layer` is the static pixel layer of variant `k`: named `name`, holding the
/// variant's pixels at its origin, enabled in the frames showing the variant when the
/// layer is visible, offset in each of them by the cel's displacement from the variant's
/// origin and given the cel's opacity.
pub open spec fn static_cel_layer_is(
    layer: NormalizedLayer,
    id: u32,
    name: Seq<char>,
    variant: SampleView,
    occurrences: Seq<Option<(usize, i16, i16, u8)>>,
    k: int,
    layer_opacity: Option<u8>,
    blend_mode: Seq<char>,
    visible: bool,
) -> bool {
    &&& layer.id == id
    &&& layer.name@ == name
    &&& layer.kind == NormalizedLayerKind::Pixel
    &&& layer.bounds == NormalizedBounds {
        left: variant.3 as i32,
        top: variant.4 as i32,
        right: (variant.3 + variant.1) as i32,
        bottom: (variant.4 + variant.2) as i32,
    }
    &&& layer.opacity == layer_opacity
    &&& layer.full_opacity == (layer_opacity is None || layer_opacity == Some(255u8))
    &&& layer.blend_mode is Some
    &&& (layer.blend_mode->0)@ == blend_mode
    &&& layer.hidden == Some(!visible)
    &&& layer.pixels is Some
    &&& (layer.pixels->0).width == variant.1
    &&& (layer.pixels->0).height == variant.2
    &&& (layer.pixels->0).left == variant.3
    &&& (layer.pixels->0).top == variant.4
    &&& (layer.pixels->0).data@ == variant.0
    &&& layer.children@.len() == 0
    &&& frames_are(layer.frame_enabled@, layer.frame_offsets@, layer.frame_opacity@, occurrences, k, variant, visible)
}

/// Whether per-frame states are those of the layer of variant `k`: enabled in the frames
/// showing the variant when the layer is visible, offset there by the cel's displacement
/// from the variant's origin and given the cel's opacity, and nothing elsewhere.
pub open spec fn frames_are(
    enabled: Seq<bool>,
    offsets: Seq<Option<(i32, i32)>>,
    opacities: Seq<Option<u8>>,
    occurrences: Seq<Option<(usize, i16, i16, u8)>>,
    k: int,
    variant: SampleView,
    visible: bool,
) -> bool {
    &&& enabled.len() == occurrences.len()
    &&& offsets.len() == occurrences.len()
    &&& opacities.len() == occurrences.len()
    &&& forall|f: int| 0 <= f < occurrences.len() ==> #[trigger] enabled[f] == (visible && shows(occurrences[f], k))
        && offsets[f] == shifted(occurrences[f], k, variant)
        && opacities[f] == faded(occurrences[f], k)
}

/// Builds the static pixel layer of variant `k` of a cel layer.
fn static_cel_layer(
    id: u32,
    name: String,
    variant: &CelSample,
    occurrences: &Vec<Option<(usize, i16, i16, u8)>>,
    k: usize,
    layer_opacity: Option<u8>,
    blend_mode: String,
    visible: bool,
) -> (layer: NormalizedLayer)
    ensures
        static_cel_layer_is(layer, id, name@, sample_view(*variant), occurrences@, k as int, layer_opacity, blend_mode@, visible),
{
    let mut frame_enabled: Vec<bool> = Vec::new();
    let mut frame_offsets: Vec<Option<(i32, i32)>> = Vec::new();
    let mut frame_opacity: Vec<Option<u8>> = Vec::new();
    let mut f: usize = 0;
    while f < occurrences.len()
        invariant
            f <= occurrences@.len(),
            frame_enabled@.len() == f,
            frame_offsets@.len() == f,
            frame_opacity@.len() == f,
            forall|g: int| 0 <= g < f ==> #[trigger] frame_enabled@[g] == (visible && shows(occurrences@[g], k as int))
                && frame_offsets@[g] == shifted(occurrences@[g], k as int, sample_view(*variant))
                && frame_opacity@[g] == faded(occurrences@[g], k as int),
        decreases occurrences@.len() - f,
    {
        match occurrences[f] {
            Some((index, x, y, opacity)) => {
                if index == k {
                    frame_enabled.push(visible);
                    frame_offsets.push(Some((x as i32 - variant.x as i32, y as i32 - variant.y as i32)));
                    frame_opacity.push(Some(opacity));
                } else {
                    frame_enabled.push(false);
                    frame_offsets.push(None);
                    frame_opacity.push(None);
                }
            },
            None => {
                frame_enabled.push(false);
                frame_offsets.push(None);
                frame_opacity.push(None);
            },
        }
        f = f + 1;
    }
    assert(frames_are(frame_enabled@, frame_offsets@, frame_opacity@, occurrences@, k as int, sample_view(*variant), visible));
    let full_opacity = match layer_opacity {
        Some(value) => value == 255,
        None => true,
    };
    let left = variant.x as i32;
    let top = variant.y as i32;
    let data = variant.pixels.clone();
    assert(data@ == variant.pixels@);
    let layer = NormalizedLayer {
        id,
        name,
        kind: NormalizedLayerKind::Pixel,
        bounds: NormalizedBounds { left, top, right: left + variant.width as i32, bottom: top + variant.height as i32 },
        full_opacity,
        blend_mode: Some(blend_mode),
        hidden: Some(!visible),
        pixels: Some(NormalizedPixels {
            width: variant.width as u32,
            height: variant.height as u32,
            left,
            top,
            data,
        }),
        children: Vec::new(),
        frame_enabled,
        opacity: layer_opacity,
        frame_offsets,
        frame_opacity,
    };
    assert(static_cel_layer_is(layer, id, name@, sample_view(*variant), occurrences@, k as int, layer_opacity, blend_mode@, visible));
    layer
}

/// Whether `layer` is the group of a cel layer: named `name`, with the layer's opacity,
/// blend mode and visibility, enabled in every frame when visible, holding `children`.
pub open spec fn cel_group_is(
    layer: NormalizedLayer,
    id: u32,
    name: Seq<char>,
    opacity: u8,
    blend_mode: Seq<char>,
    visible: bool,
    frame_count: int,
) -> bool {
    &&& layer.id == id
    &&& layer.name@ == name
    &&& layer.kind == NormalizedLayerKind::Group
    &&& layer.bounds == NormalizedBounds { left: 0, top: 0, right: 0, bottom: 0 }
    &&& layer.opacity == Some(opacity)
    &&& layer.full_opacity == (opacity == 255)
    &&& layer.blend_mode is Some
    &&& (layer.blend_mode->0)@ == blend_mode
    &&& layer.hidden == Some(!visible)
    &&& layer.pixels is None
    &&& layer.frame_enabled@ == Seq::new(frame_count as nat, |f: int| visible)
    &&& layer.frame_offsets@ == Seq::new(frame_count as nat, |f: int| None::<(i32, i32)>)
    &&& layer.frame_opacity@ == Seq::new(frame_count as nat, |f: int| None::<u8>)
}

/// Builds the group of a cel layer around its variant layers.
fn cel_group(
    id: u32,
    name: String,
    opacity: u8,
    blend_mode: String,
    visible: bool,
    frame_count: usize,
    children: Vec<NormalizedLayer>,
) -> (layer: NormalizedLayer)
    ensures
        cel_group_is(layer, id, name@, opacity, blend_mode@, visible, frame_count as int),
        layer.children@ == children@,
{
    let mut frame_enabled: Vec<bool> = Vec::new();
    let mut frame_offsets: Vec<Option<(i32, i32)>> = Vec::new();
    let mut frame_opacity: Vec<Option<u8>> = Vec::new();
    let mut f: usize = 0;
    while f < frame_count
        invariant
            f <= frame_count,
            frame_enabled@ == Seq::new(f as nat, |g: int| visible),
            frame_offsets@ == Seq::new(f as nat, |g: int| None::<(i32, i32)>),
            frame_opacity@ == Seq::new(f as nat, |g: int| None::<u8>),
        decreases frame_count - f,
    {
        frame_enabled.push(visible);
        frame_offsets.push(None);
        frame_opacity.push(None);
        f = f + 1;
    }
    NormalizedLayer {
        id,
        name,
        kind: NormalizedLayerKind::Group,
        bounds: NormalizedBounds { left: 0, top: 0, right: 0, bottom: 0 },
        full_opacity: opacity == 255,
        blend_mode: Some(blend_mode),
        hidden: Some(!visible),
        pixels: None,
        children,
        frame_enabled,
        opacity: Some(opacity),
        frame_offsets,
        frame_opacity,
    }
}


/// The values of a list of variants.
pub open spec fn variant_views(variants: Seq<CelSample>) -> Seq<SampleView> {
    variants.map_values(|sample: CelSample| sample_view(sample))
}

/// A variant found in a prefix of the variants stays the first one in the whole list.
proof fn lemma_first_same_extends(variants: Seq<SampleView>, j: int, cel: SampleView)
    requires
        0 <= j <= variants.len(),
        first_same(variants.take(j), cel) >= 0,
    ensures
        first_same(variants, cel) == first_same(variants.take(j), cel),
    decreases variants.len(),
{
    if j == variants.len() {
        assert(variants.take(j) =~= variants);
    } else {
        assert(variants.drop_last().take(j) =~= variants.take(j));
        lemma_first_same_extends(variants.drop_last(), j, cel);
    }
}

/// A list never has more distinct images than cels.
proof fn lemma_variants_bounded(cels: Seq<Option<SampleView>>)
    ensures
        variants_of(cels).len() <= cels.len(),
    decreases cels.len(),
{
    if cels.len() > 0 {
        lemma_variants_bounded(cels.drop_last());
    }
}

fn same_bytes(left: &Vec<u8>, right: &Vec<u8>) -> (equal: bool)
    ensures
        equal == (left@ == right@),
{
    if left.len() != right.len() {
        return false;
    }
    let mut i: usize = 0;
    while i < left.len()
        invariant
            left@.len() == right@.len(),
            i <= left@.len(),
            forall|j: int| 0 <= j < i ==> left@[j] == right@[j],
        decreases left@.len() - i,
    {
        if left[i] != right[i] {
            return false;
        }
        i = i + 1;
    }
    assert(left@ =~= right@);
    true
}

/// The first variant holding the image of a cel.
fn find_variant(variants: &Vec<CelSample>, sample: &CelSample) -> (found: Option<usize>)
    ensures
        match found {
            Some(i) => i == first_same(variant_views(variants@), sample_view(*sample)) && i < variants@.len(),
            None => first_same(variant_views(variants@), sample_view(*sample)) == -1,
        },
{
    let ghost views = variant_views(variants@);
    let ghost cel = sample_view(*sample);
    let mut i: usize = 0;
    assert(views.take(0) =~= Seq::<SampleView>::empty());
    while i < variants.len()
        invariant
            i <= variants@.len(),
            views == variant_views(variants@),
            cel == sample_view(*sample),
            first_same(views.take(i as int), cel) == -1,
        decreases variants@.len() - i,
    {
        let candidate = &variants[i];
        assert(views.take(i as int + 1).drop_last() =~= views.take(i as int));
        if candidate.width == sample.width && candidate.height == sample.height && same_bytes(&candidate.pixels, &sample.pixels) {
            proof {
                assert(views.take(i as int + 1).last() == views[i as int]);
                assert(first_same(views.take(i as int + 1), cel) == i);
                lemma_first_same_extends(views, i as int + 1, cel);
            }
            return Some(i);
        }
        i = i + 1;
    }
    assert(views.take(variants@.len() as int) =~= views);
    None
}

/// A copy of a cel sample.
fn copy_sample(sample: &CelSample) -> (copy: CelSample)
    ensures
        sample_view(copy) == sample_view(*sample),
{
    CelSample {
        pixels: sample.pixels.clone(),
        width: sample.width,
        height: sample.height,
        x: sample.x,
        y: sample.y,
        opacity: sample.opacity,
        z_index: sample.z_index,
    }
}

/// Adds one loss to a report, counting it under its code and disposition and leaving every
/// other count as it was.
pub(crate) fn record_loss(
    report: &mut InformationLossReport,
    code: InformationLossCode,
    disposition: LossDisposition,
    location: InformationLocation,
    detail: &str,
    visual_impact: bool,
    editability_impact: bool,
)
    requires
        loss_count(old(report).entries@, code, disposition) < usize::MAX,
    ensures
        loss_count(final(report).entries@, code, disposition) == loss_count(old(report).entries@, code, disposition) + 1,
        forall|c: InformationLossCode, d: LossDisposition| !(c == code && d == disposition)
            ==> #[trigger] loss_count(final(report).entries@, c, d) == loss_count(old(report).entries@, c, d),
{
    let ghost before = report.entries@;
    report.add(code, disposition, location, detail, visual_impact, editability_impact);
    let ghost after = report.entries@;
    proof {
        match first_entry_with_key(before, code, disposition) {
            Some(index) => {
                lemma_same_keys(after, before, code, disposition);
                assert forall|c: InformationLossCode, d: LossDisposition| !(c == code && d == disposition) implies
                    #[trigger] loss_count(after, c, d) == loss_count(before, c, d) by {
                    lemma_same_keys(after, before, c, d);
                    if let Some(j) = first_entry_with_key(before, c, d) {
                        lemma_first_entry_has_key(before, c, d);
                        lemma_first_entry_has_key(before, code, disposition);
                        assert(j != index);
                    }
                }
            },
            None => {
                assert(after.drop_last() == before);
                assert(entry_has_key(after.last(), code, disposition));
                assert(first_entry_with_key(after, code, disposition) == Some(after.len() - 1));
                assert forall|c: InformationLossCode, d: LossDisposition| !(c == code && d == disposition) implies
                    #[trigger] loss_count(after, c, d) == loss_count(before, c, d) by {
                    if let Some(j) = first_entry_with_key(before, c, d) {
                        lemma_first_entry_has_key(before, c, d);
                        assert(after[j] == after.drop_last()[j]);
                    }
                }
            },
        }
    }
}

/// The first entry found for a key is an entry of the list with that key.
proof fn lemma_first_entry_has_key(entries: Seq<InformationLoss>, code: InformationLossCode, disposition: LossDisposition)
    ensures
        first_entry_with_key(entries, code, disposition) matches Some(index) ==> 0 <= index < entries.len()
            && entries[index].code == code && entries[index].disposition == disposition,
    decreases entries.len(),
{
    if entries.len() > 0 {
        lemma_first_entry_has_key(entries.drop_last(), code, disposition);
        if let Some(index) = first_entry_with_key(entries.drop_last(), code, disposition) {
            assert(entries.drop_last()[index] == entries[index]);
        }
    }
}

/// Entries with the same codes and dispositions, position by position, find the same first
/// entry for every key.
proof fn lemma_same_keys(a: Seq<InformationLoss>, b: Seq<InformationLoss>, code: InformationLossCode, disposition: LossDisposition)
    requires
        a.len() == b.len(),
        forall|i: int| 0 <= i < a.len() ==> #[trigger] a[i].code == b[i].code && a[i].disposition == b[i].disposition,
    ensures
        first_entry_with_key(a, code, disposition) == first_entry_with_key(b, code, disposition),
    decreases a.len(),
{
    if a.len() > 0 {
        assert forall|i: int| 0 <= i < a.drop_last().len() implies #[trigger] a.drop_last()[i].code == b.drop_last()[i].code
            && a.drop_last()[i].disposition == b.drop_last()[i].disposition by {
            assert(a.drop_last()[i] == a[i]);
            assert(b.drop_last()[i] == b[i]);
        }
        lemma_same_keys(a.drop_last(), b.drop_last(), code, disposition);
        assert(a.last() == a[a.len() - 1]);
    }
}


/// Hands out the next layer id.
fn take_id(next_id: &mut u32) -> (id: u32)
    requires
        *old(next_id) < u32::MAX,
    ensures
        id == *old(next_id),
        *final(next_id) == *old(next_id) + 1,
{
    let id = *next_id;
    *next_id = *next_id + 1;
    id
}

/// The one transparent pixel an empty cel layer is written as.
pub open spec fn blank_view() -> SampleView {
    (seq![0u8, 0u8, 0u8, 0u8], 1u16, 1u16, 0i16, 0i16, 255u8, 0i16)
}

/// The name of the layer of variant `k`.
pub open spec fn variant_name(name: Seq<char>, k: int) -> Seq<char> {
    name + " — Cel "@ + decimal(k + 1)
}

/// Whether `layer` is what the cels `cels` of a layer named `name` are built into, with ids
/// handed out from `first` up to `next`: one hidden transparent pixel without cels, a static
/// pixel layer for one image, else a group of one static layer per image, the group last.
pub open spec fn cel_layers_built(
    layer: NormalizedLayer,
    name: Seq<char>,
    opacity: u8,
    blend_mode: Seq<char>,
    visible: bool,
    cels: Seq<Option<SampleView>>,
    first: u32,
    next: u32,
) -> bool {
    let variants = variants_of(cels);
    let n = cels.len();
    let occurrences = Seq::new(n, |f: int| occurrence(cels, f));
    &&& variants.len() == 0 ==> {
        &&& next == first + 1
        &&& static_cel_layer_is(layer, first, name, blank_view(), Seq::new(n, |f: int| None::<(usize, i16, i16, u8)>), 0,
            Some(opacity), blend_mode, visible)
    }
    &&& variants.len() == 1 ==> {
        &&& next == first + 1
        &&& static_cel_layer_is(layer, first, name, variants[0], occurrences, 0, Some(opacity), blend_mode, visible)
    }
    &&& variants.len() > 1 ==> {
        &&& next == first + variants.len() + 1
        &&& cel_group_is(layer, (first + variants.len()) as u32, name, opacity, blend_mode, visible, n as int)
        &&& layer.children@.len() == variants.len()
        &&& forall|k: int| 0 <= k < variants.len() ==> static_cel_layer_is(#[trigger] layer.children@[k], (first + k) as u32,
            variant_name(name, k), variants[k], occurrences, k, Some(255u8), "normal"@, true)
    }
}

/// Builds the normalized layers of one Aseprite pixel layer from its cels, one per frame of
/// the playback sequence (`None` where the frame has no cel). Distinct cel images become
/// variants in the order of first use. With no cel at all the layer becomes one hidden,
/// transparent pixel and an empty-layer loss is recorded; with one variant it becomes a
/// static pixel layer; with more it becomes a group of one static layer per variant, each
/// enabled in the frames that show it. A cel with a Z-Index records a Z-Index loss. Layer
/// ids are handed out from `next_id`, variants first and the group last.
pub fn build_cel_layers(
    layer_index: usize,
    name: String,
    opacity: u8,
    blend_mode: String,
    visible: bool,
    samples: Vec<Option<CelSample>>,
    report: &mut InformationLossReport,
    next_id: &mut u32,
) -> (layer: NormalizedLayer)
    requires
        layer_index < u32::MAX,
        *old(next_id) + samples@.len() + 1 <= u32::MAX,
        loss_count(old(report).entries@, InformationLossCode::CelZIndex, LossDisposition::Degraded) + samples@.len() < usize::MAX,
        loss_count(old(report).entries@, InformationLossCode::EmptyPixelLayer, LossDisposition::Degraded) < usize::MAX,
    ensures
        ({
            let cels = sample_views(samples@);
            let variants = variants_of(cels);
            let n = samples@.len();
            let occurrences = Seq::new(n, |f: int| occurrence(cels, f));
            let first = *old(next_id);
            &&& loss_count(final(report).entries@, InformationLossCode::CelZIndex, LossDisposition::Degraded)
                == loss_count(old(report).entries@, InformationLossCode::CelZIndex, LossDisposition::Degraded) + z_index_cels(cels)
            &&& loss_count(final(report).entries@, InformationLossCode::EmptyPixelLayer, LossDisposition::Degraded)
                == loss_count(old(report).entries@, InformationLossCode::EmptyPixelLayer, LossDisposition::Degraded)
                    + if variants.len() == 0 { 1int } else { 0int }
            &&& forall|c: InformationLossCode, d: LossDisposition|
                !(c == InformationLossCode::CelZIndex && d == LossDisposition::Degraded)
                && !(c == InformationLossCode::EmptyPixelLayer && d == LossDisposition::Degraded)
                ==> #[trigger] loss_count(final(report).entries@, c, d) == loss_count(old(report).entries@, c, d)
            &&& cel_layers_built(layer, name@, opacity, blend_mode@, visible, cels, first, *final(next_id))
        }),
{
    let n = samples.len();
    let ghost cels = sample_views(samples@);
    let ghost start_report = report.entries@;
    let number = (layer_index + 1) as u32;
    let mut variants: Vec<CelSample> = Vec::new();
    let mut occurrences: Vec<Option<(usize, i16, i16, u8)>> = Vec::new();
    let mut f: usize = 0;
    assert(cels.take(0) =~= Seq::<Option<SampleView>>::empty());
    assert(variant_views(variants@) =~= Seq::<SampleView>::empty());
    while f < n
        invariant
            n == samples@.len(),
            cels == sample_views(samples@),
            f <= n,
            variant_views(variants@) == variants_of(cels.take(f as int)),
            occurrences@.len() == f,
            forall|g: int| 0 <= g < f ==> #[trigger] occurrences@[g] == occ_with(cels[g], variant_views(variants@)),
            forall|g: int| 0 <= g < f && (#[trigger] cels[g]) is Some ==> first_same(variant_views(variants@), cels[g]->0) >= 0,
            start_report == old(report).entries@,
            loss_count(report.entries@, InformationLossCode::CelZIndex, LossDisposition::Degraded)
                == loss_count(start_report, InformationLossCode::CelZIndex, LossDisposition::Degraded) + z_index_cels(cels.take(f as int)),
            z_index_cels(cels.take(f as int)) <= f,
            loss_count(start_report, InformationLossCode::CelZIndex, LossDisposition::Degraded) + n < usize::MAX,
            forall|c: InformationLossCode, d: LossDisposition| !(c == InformationLossCode::CelZIndex && d == LossDisposition::Degraded)
                ==> #[trigger] loss_count(report.entries@, c, d) == loss_count(start_report, c, d),
        decreases n - f,
    {
        let ghost before = variant_views(variants@);
        proof {
            assert(cels.take(f as int + 1).drop_last() =~= cels.take(f as int));
            assert(cels.take(f as int + 1).last() == cels[f as int]);
        }
        match &samples[f] {
            None => {
                occurrences.push(None);
                assert(cels[f as int] is None);
            },
            Some(sample) => {
                assert(cels[f as int] == Some(sample_view(*sample)));
                if sample.z_index != 0 {
                    record_loss(
                        report,
                        InformationLossCode::CelZIndex,
                        LossDisposition::Degraded,
                        InformationLocation { layer_id: Some(number), path: name.clone() },
                        "Aseprite per-cel z-index is reduced to the static Photoshop layer order",
                        true,
                        true,
                    );
                }
                let index = match find_variant(&variants, sample) {
                    Some(i) => i,
                    None => {
                        let copy = copy_sample(sample);
                        variants.push(copy);
                        proof {
                            assert(variant_views(variants@) =~= before.push(sample_view(*sample)));
                            assert(variant_views(variants@).drop_last() =~= before);
                            assert(same_image(sample_view(*sample), sample_view(*sample)));
                            assert forall|g: int| 0 <= g < f && (#[trigger] cels[g]) is Some implies
                                first_same(variant_views(variants@), cels[g]->0) == first_same(before, cels[g]->0) by {}
                        }
                        variants.len() - 1
                    },
                };
                occurrences.push(Some((index, sample.x, sample.y, sample.opacity)));
            },
        }
        proof {
            assert forall|g: int| 0 <= g < f + 1 implies #[trigger] occurrences@[g] == occ_with(cels[g], variant_views(variants@)) by {
                if g < f {
                    if let Some(c) = cels[g] {
                        if variant_views(variants@) != before {
                            assert(variant_views(variants@).drop_last() =~= before);
                        }
                    }
                }
            }
        }
        f = f + 1;
    }
    proof {
        assert(cels.take(n as int) =~= cels);
        lemma_variants_bounded(cels);
    }
    let count = variants.len();
    let ghost occ = Seq::new(n as nat, |g: int| occurrence(cels, g));
    assert(occurrences@ =~= occ);
    if count == 0 {
        record_loss(
            report,
            InformationLossCode::EmptyPixelLayer,
            LossDisposition::Degraded,
            InformationLocation { layer_id: Some(number), path: name.clone() },
            "An empty Aseprite pixel layer is represented by a permanently hidden transparent PSD pixel",
            false,
            true,
        );
        let mut none: Vec<Option<(usize, i16, i16, u8)>> = Vec::new();
        let mut g: usize = 0;
        while g < n
            invariant
                g <= n,
                none@ == Seq::new(g as nat, |i: int| None::<(usize, i16, i16, u8)>),
            decreases n - g,
        {
            none.push(None);
            g = g + 1;
        }
        let mut pixels: Vec<u8> = Vec::new();
        pixels.push(0);
        pixels.push(0);
        pixels.push(0);
        pixels.push(0);
        let blank = CelSample { pixels, width: 1, height: 1, x: 0, y: 0, opacity: 255, z_index: 0 };
        assert(sample_view(blank) =~= blank_view());
        let id = take_id(next_id);
        return static_cel_layer(id, name, &blank, &none, 0, Some(opacity), blend_mode, visible);
    }
    if count == 1 {
        let id = take_id(next_id);
        assert(variant_views(variants@)[0] == sample_view(variants@[0]));
        return static_cel_layer(id, name, &variants[0], &occurrences, 0, Some(opacity), blend_mode, visible);
    }
    let ghost first = *next_id;
    let mut children: Vec<NormalizedLayer> = Vec::new();
    let mut k: usize = 0;
    while k < count
        invariant
            count == variants@.len(),
            k <= count,
            count <= n,
            first + n + 1 <= u32::MAX,
            *next_id == first + k,
            children@.len() == k,
            occurrences@ == occ,
            forall|j: int| 0 <= j < k ==> static_cel_layer_is(#[trigger] children@[j], (first + j) as u32,
                variant_name(name@, j), variant_views(variants@)[j], occ, j, Some(255u8), "normal"@, true),
        decreases count - k,
    {
        let mut child_name = name.clone();
        child_name.append(" — Cel ");
        append_unsigned(&mut child_name, (k + 1) as u64);
        let id = take_id(next_id);
        assert(variant_views(variants@)[k as int] == sample_view(variants@[k as int]));
        let child = static_cel_layer(id, child_name, &variants[k], &occurrences, k, Some(255), "normal".to_owned(), true);
        children.push(child);
        proof {
            assert(decimal(k as int + 1) == unsigned_decimal((k + 1) as nat));
        }
        k = k + 1;
    }
    let id = take_id(next_id);
    cel_group(id, name, opacity, blend_mode, visible, n, children)
}


/// The RGBA8 form of a grayscale image of gray and alpha byte pairs.
pub open spec fn gray_rgba(data: Seq<u8>) -> Seq<u8> {
    Seq::new(data.len() * 2, |i: int| if i % 4 == 3 { data[(i / 4) * 2 + 1] } else { data[(i / 4) * 2] })
}

/// Expands grayscale pixels, a gray byte and an alpha byte each, to RGBA8.
pub fn rgba_from_grayscale(data: &Vec<u8>) -> (rgba: Vec<u8>)
    requires
        data@.len() % 2 == 0,
        data@.len() * 2 <= usize::MAX,
    ensures
        rgba@ == gray_rgba(data@),
{
    let mut rgba: Vec<u8> = Vec::new();
    let mut p: usize = 0;
    while p + 1 < data.len()
        invariant
            data@.len() % 2 == 0,
            data@.len() * 2 <= usize::MAX,
            p % 2 == 0,
            p <= data@.len(),
            rgba@.len() == p * 2,
            forall|i: int| 0 <= i < p * 2 ==> #[trigger] rgba@[i] == gray_rgba(data@)[i],
        decreases data@.len() - p,
    {
        let gray = data[p];
        let alpha = data[p + 1];
        rgba.push(gray);
        rgba.push(gray);
        rgba.push(gray);
        rgba.push(alpha);
        proof {
            assert forall|i: int| p * 2 <= i < p * 2 + 4 implies #[trigger] rgba@[i] == gray_rgba(data@)[i] by {
                assert((i / 4) * 2 == p) by (nonlinear_arith)
                    requires p * 2 <= i < p * 2 + 4, p % 2 == 0;
                assert(i % 4 == i - p * 2) by (nonlinear_arith)
                    requires p * 2 <= i < p * 2 + 4, p % 2 == 0;
            }
        }
        p = p + 2;
    }
    assert(rgba@ =~= gray_rgba(data@));
    rgba
}

/// The RGBA8 color of one palette index: the palette entry, black for an index past the
/// palette, and alpha 0 for the transparent index, else the entry's alpha (255 past the
/// palette).
pub open spec fn palette_rgba(palette: Seq<(u8, u8, u8, u8)>, transparent: u8, index: u8) -> Seq<u8> {
    let known = (index as int) < palette.len();
    let color = palette[index as int];
    seq![
        if known { color.0 } else { 0u8 },
        if known { color.1 } else { 0u8 },
        if known { color.2 } else { 0u8 },
        if index == transparent { 0u8 } else if known { color.3 } else { 255u8 },
    ]
}

/// The RGBA8 form of an indexed image.
pub open spec fn indexed_rgba(data: Seq<u8>, palette: Seq<(u8, u8, u8, u8)>, transparent: u8) -> Seq<u8> {
    Seq::new(data.len() * 4, |i: int| palette_rgba(palette, transparent, data[i / 4])[i % 4])
}

/// Expands indexed pixels to RGBA8 through the palette.
pub fn rgba_from_indexed(data: &Vec<u8>, palette: &Vec<(u8, u8, u8, u8)>, transparent: u8) -> (rgba: Vec<u8>)
    requires
        data@.len() * 4 <= usize::MAX,
    ensures
        rgba@ == indexed_rgba(data@, palette@, transparent),
{
    let mut rgba: Vec<u8> = Vec::new();
    let mut p: usize = 0;
    while p < data.len()
        invariant
            data@.len() * 4 <= usize::MAX,
            p <= data@.len(),
            rgba@.len() == p * 4,
            forall|i: int| 0 <= i < p * 4 ==> #[trigger] rgba@[i] == indexed_rgba(data@, palette@, transparent)[i],
        decreases data@.len() - p,
    {
        let index = data[p];
        let known = (index as usize) < palette.len();
        let (r, g, b, a) = if known { palette[index as usize] } else { (0u8, 0u8, 0u8, 255u8) };
        let alpha = if index == transparent { 0u8 } else { a };
        rgba.push(r);
        rgba.push(g);
        rgba.push(b);
        rgba.push(alpha);
        proof {
            assert forall|i: int| p * 4 <= i < p * 4 + 4 implies #[trigger] rgba@[i] == indexed_rgba(data@, palette@, transparent)[i] by {
                assert(i / 4 == p) by (nonlinear_arith)
                    requires p * 4 <= i < p * 4 + 4;
                assert(i % 4 == i - p * 4) by (nonlinear_arith)
                    requires p * 4 <= i < p * 4 + 4;
            }
        }
        p = p + 1;
    }
    assert(rgba@ =~= indexed_rgba(data@, palette@, transparent));
    rgba
}


/// The RGBA8 form of pixel bytes in a color mode; empty for a mode the library does not read.
pub open spec fn mode_rgba(mode: AseColorMode, data: Seq<u8>, palette: Seq<(u8, u8, u8, u8)>, transparent: u8) -> Seq<u8> {
    match mode {
        AseColorMode::Rgba => data,
        AseColorMode::Grayscale => gray_rgba(data),
        AseColorMode::Indexed => indexed_rgba(data, palette, transparent),
        AseColorMode::Other => Seq::empty(),
    }
}

/// The pixels of a cel of the file as RGBA8, by the file's color mode.
pub fn rgba_pixels(file: &AsepriteFile, pixels: &Pixels) -> (rgba: Vec<u8>)
    requires
        ase_pixel_bytes(*pixels).len() * 4 <= usize::MAX,
        ase_color_mode(*file) == AseColorMode::Grayscale ==> ase_pixel_bytes(*pixels).len() % 2 == 0,
    ensures
        rgba@ == mode_rgba(ase_color_mode(*file), ase_pixel_bytes(*pixels), ase_palette(*file), ase_transparent_index(*file)),
{
    let data = pixel_bytes(pixels);
    match file_color_mode(file) {
        AseColorMode::Rgba => data,
        AseColorMode::Grayscale => rgba_from_grayscale(&data),
        AseColorMode::Indexed => {
            let palette = file_palette(file);
            let transparent = file_transparent_index(file);
            rgba_from_indexed(&data, &palette, transparent)
        },
        AseColorMode::Other => Vec::new(),
    }
}


/// Byte `i` of a `width`-pixel-wide RGBA8 canvas after a cel is copied onto it: inside the
/// cel, the cel's byte, its alpha scaled by the cel's opacity; elsewhere the canvas byte.
pub open spec fn blit_value(canvas: Seq<u8>, width: int, cel: SampleView, i: int) -> u8 {
    let p = i / 4;
    let c = i % 4;
    let sx = p % width - cel.3;
    let sy = p / width - cel.4;
    if 0 <= sx < cel.1 && 0 <= sy < cel.2 {
        let s = (sy * cel.1 + sx) * 4;
        if c < 3 { cel.0[s + c] } else { (cel.0[s + 3] * cel.5 / 255) as u8 }
    } else {
        canvas[i]
    }
}

/// Copies one cel onto a transparent or partly drawn canvas of `width` by `height` RGBA8
/// pixels, clipping what falls outside, with the cel's alpha scaled by its opacity.
pub fn blit_single_flattened_cel(canvas: &mut Vec<u8>, width: u16, height: u16, sample: &CelSample)
    requires
        old(canvas)@.len() == width * height * 4,
        sample.pixels@.len() >= sample.width * sample.height * 4,
    ensures
        final(canvas)@ == Seq::new(old(canvas)@.len(), |i: int| blit_value(old(canvas)@, width as int, sample_view(*sample), i)),
{
    let ghost start = canvas@;
    let ghost cel = sample_view(*sample);
    let w = width as usize;
    proof {
        assert(w * height <= 0xffff * 0xffff) by (nonlinear_arith)
            requires w <= 0xffff, height <= 0xffff;
    }
    let total = w * height as usize;
    let len = canvas.len();
    let pixel_len = sample.pixels.len();
    proof {
        assert(total * 4 == width * height * 4) by (nonlinear_arith)
            requires total == width * height;
        assert(w == 0 ==> total == 0) by (nonlinear_arith)
            requires total == w * height;
    }
    let mut p: usize = 0;
    let mut tx: usize = 0;
    let mut ty: usize = 0;
    while p < total
        invariant
            w == width,
            total == width * height,
            start.len() == total * 4,
            cel == sample_view(*sample),
            sample.pixels@.len() >= sample.width * sample.height * 4,
            p <= total,
            p == ty * w + tx,
            tx < w || total == 0,
            ty <= height,
            canvas@.len() == total * 4,
            len == total * 4,
            pixel_len == sample.pixels@.len(),
            forall|i: int| 0 <= i < p * 4 ==> #[trigger] canvas@[i] == blit_value(start, width as int, cel, i),
            forall|i: int| p * 4 <= i < total * 4 ==> #[trigger] canvas@[i] == start[i],
        decreases total - p,
    {
        proof {
            assert(ty < height) by (nonlinear_arith)
                requires p == ty * w + tx, p < total, total == w * height, tx < w, w > 0;
            vstd::arithmetic::div_mod::lemma_fundamental_div_mod_converse(p as int, w as int, ty as int, tx as int);
        }
        let sx = tx as i32 - sample.x as i32;
        let sy = ty as i32 - sample.y as i32;
        let t = p * 4;
        if 0 <= sx && sx < sample.width as i32 && 0 <= sy && sy < sample.height as i32 {
            let sw = sample.width as usize;
            proof {
                assert((sy as int) * sw + (sx as int) < (sample.height as int) * sw) by (nonlinear_arith)
                    requires 0 <= sx < sw, 0 <= sy < sample.height;
                assert((sample.height as int) * sw * 4 == sample.width * sample.height * 4) by (nonlinear_arith)
                    requires sw == sample.width;
                assert(0 <= (sy as int) * sw) by (nonlinear_arith)
                    requires 0 <= sy, 0 <= sw;
                assert(((sy as int) * sw + (sx as int)) * 4 + 4 <= (sample.height as int) * sw * 4) by (nonlinear_arith)
                    requires (sy as int) * sw + (sx as int) < (sample.height as int) * sw;
            }
            let s = ((sy as usize) * sw + sx as usize) * 4;
            let source_alpha = sample.pixels[s + 3] as u16;
            let opacity = sample.opacity as u16;
            proof {
                assert(source_alpha * opacity <= 255 * 255) by (nonlinear_arith)
                    requires source_alpha <= 255, opacity <= 255;
            }
            let alpha = ((source_alpha * opacity) / 255) as u8;
            canvas.set(t, sample.pixels[s]);
            canvas.set(t + 1, sample.pixels[s + 1]);
            canvas.set(t + 2, sample.pixels[s + 2]);
            canvas.set(t + 3, alpha);
        }
        proof {
            assert forall|i: int| p * 4 <= i < p * 4 + 4 implies #[trigger] canvas@[i] == blit_value(start, width as int, cel, i) by {
                assert(i / 4 == p) by (nonlinear_arith)
                    requires p * 4 <= i < p * 4 + 4;
                assert(i % 4 == i - p * 4) by (nonlinear_arith)
                    requires p * 4 <= i < p * 4 + 4;
            }
        }
        p = p + 1;
        tx = tx + 1;
        if tx == w {
            proof {
                assert((ty + 1) * w == ty * w + w) by (nonlinear_arith);
            }
            tx = 0;
            ty = ty + 1;
        }
    }
    assert(canvas@ =~= Seq::new(start.len(), |i: int| blit_value(start, width as int, cel, i)));
}


/// Converts stored pixel bytes to RGBA8 by the file's color mode.
fn rgba_of(file: &AsepriteFile, data: &Vec<u8>) -> (rgba: Vec<u8>)
    requires
        data@.len() * 4 <= usize::MAX,
        ase_color_mode(*file) == AseColorMode::Grayscale ==> data@.len() % 2 == 0,
    ensures
        rgba@ == mode_rgba(ase_color_mode(*file), data@, ase_palette(*file), ase_transparent_index(*file)),
{
    match file_color_mode(file) {
        AseColorMode::Rgba => data.clone(),
        AseColorMode::Grayscale => rgba_from_grayscale(data),
        AseColorMode::Indexed => {
            let palette = file_palette(file);
            let transparent = file_transparent_index(file);
            rgba_from_indexed(data, &palette, transparent)
        },
        AseColorMode::Other => Vec::new(),
    }
}

/// Whether stored pixel bytes can be converted: small enough to address four times over,
/// and whole gray and alpha pairs in grayscale.
pub open spec fn convertible(file: AsepriteFile, data: Seq<u8>) -> bool {
    data.len() * 4 <= usize::MAX && (ase_color_mode(file) == AseColorMode::Grayscale ==> data.len() % 2 == 0)
}

/// The message for a linked cel whose source is missing.
pub open spec fn unresolved_text(frame: int) -> Seq<char> {
    "linked cel at frame "@ + decimal(frame) + " cannot be resolved"@
}

/// The message for a linked cel whose source is no pixel cel.
pub open spec fn non_pixel_text(frame: int) -> Seq<char> {
    "linked cel at frame "@ + decimal(frame) + " resolves to a non-pixel cel"@
}

/// The message for a cel of an unreadable kind.
pub open spec fn unsupported_cel_text(frame: int) -> Seq<char> {
    "cel at frame "@ + decimal(frame) + " uses an unsupported kind"@
}

/// Whether an error is one of the read errors of the cel of `frame`.
pub open spec fn frame_error(e: ExportError, frame: int) -> bool {
    e matches ExportError::AsepriteRead(m) && (m@ == unresolved_text(frame) || m@ == non_pixel_text(frame) || m@ == unsupported_cel_text(frame))
}

fn frame_message(prefix: &str, frame: usize, suffix: &str) -> (message: String)
    ensures
        message@ == prefix@ + decimal(frame as int) + suffix@,
{
    let mut message = String::new();
    message.append(prefix);
    append_unsigned(&mut message, frame as u64);
    message.append(suffix);
    message
}

/// Whether a sample is what the cel of file layer `index` in `frame` reads as: nothing
/// without a cel; else the cel's placement, opacity and Z-Index with the size and RGBA8
/// pixels of the cel, or of its source frame's cel for a link.
pub open spec fn sample_read(file: AsepriteFile, index: usize, frame: usize, sample: Option<CelSample>) -> bool {
    let cels = ase_cels(file);
    let view = cels[(index, frame)];
    let pixels = match view.0 {
        None => view,
        Some(source) => cels[(index, source)],
    };
    &&& !cels.contains_key((index, frame)) ==> sample is None
    &&& sample matches Some(s) ==> {
        &&& cels.contains_key((index, frame))
        &&& pixels.0 is None
        &&& s.x == view.1 && s.y == view.2 && s.opacity == view.3 && s.z_index == view.4
        &&& s.width == pixels.5 && s.height == pixels.6
        &&& s.pixels@ == mode_rgba(ase_color_mode(file), pixels.7, ase_palette(file), ase_transparent_index(file))
    }
}

/// Reads the cel of a layer in a frame as RGBA8 pixels with its placement, following a
/// link to the pixels of its source frame while keeping the link's own placement. A frame
/// without a cel, or with a tilemap cel, has no sample.
pub fn cel_sample(file: &AsepriteFile, layer: &AseLayer, frame: usize) -> (sample: Result<Option<CelSample>, ExportError>)
    requires
        forall|key: (usize, usize)| #[trigger] ase_cels(*file).contains_key(key) ==> convertible(*file, ase_cels(*file)[key].7),
    ensures
        ase_cels(*file).contains_key((layer.index_in_file(), frame)) && ase_cels(*file)[(layer.index_in_file(), frame)].0 is None
            ==> sample matches Ok(Some(_)),
        sample matches Ok(s) ==> sample_read(*file, layer.index_in_file(), frame, s),
        sample matches Err(e) ==> e matches ExportError::AsepriteRead(m) && (m@ == unresolved_text(frame as int)
            || m@ == non_pixel_text(frame as int) || m@ == unsupported_cel_text(frame as int)),
{
    match stored_cel(file, layer, frame) {
        None => Ok(None),
        Some(StoredCel::Pixels { data, width, height, x, y, opacity, z_index }) => {
            proof {
                assert(ase_cels(*file).contains_key((layer.index_in_file(), frame)));
            }
            let pixels = rgba_of(file, &data);
            Ok(Some(CelSample { pixels, width, height, x, y, opacity, z_index }))
        },
        Some(StoredCel::Linked { source_frame, x, y, opacity, z_index }) => {
            match stored_cel(file, layer, source_frame) {
                Some(StoredCel::Pixels { data, width, height, .. }) => {
                    proof {
                        assert(ase_cels(*file).contains_key((layer.index_in_file(), source_frame)));
                    }
                    let pixels = rgba_of(file, &data);
                    Ok(Some(CelSample { pixels, width, height, x, y, opacity, z_index }))
                },
                None => Err(ExportError::AsepriteRead(frame_message("linked cel at frame ", frame, " cannot be resolved"))),
                Some(_) => Err(ExportError::AsepriteRead(frame_message("linked cel at frame ", frame, " resolves to a non-pixel cel"))),
            }
        },
        Some(StoredCel::Tilemap) => Ok(None),
        Some(StoredCel::Other) => Err(ExportError::AsepriteRead(frame_message("cel at frame ", frame, " uses an unsupported kind"))),
    }
}


/// Reads the cels of a layer for every frame of a playback sequence, in order.
pub fn layer_cel_samples(file: &AsepriteFile, layer: &AseLayer, sequence: &Vec<usize>) -> (samples: Result<Vec<Option<CelSample>>, ExportError>)
    requires
        forall|key: (usize, usize)| #[trigger] ase_cels(*file).contains_key(key) ==> convertible(*file, ase_cels(*file)[key].7),
    ensures
        samples matches Ok(list) ==> list@.len() == sequence@.len() && forall|k: int| 0 <= k < sequence@.len() ==>
            #[trigger] sample_read(*file, layer.index_in_file(), sequence@[k], list@[k]),
        samples matches Err(e) ==> exists|k: int| 0 <= k < sequence@.len() && #[trigger] frame_error(e, sequence@[k] as int),
{
    let mut samples: Vec<Option<CelSample>> = Vec::new();
    let mut k: usize = 0;
    while k < sequence.len()
        invariant
            k <= sequence@.len(),
            samples@.len() == k,
            forall|key: (usize, usize)| #[trigger] ase_cels(*file).contains_key(key) ==> convertible(*file, ase_cels(*file)[key].7),
            forall|j: int| 0 <= j < k ==> #[trigger] sample_read(*file, layer.index_in_file(), sequence@[j], samples@[j]),
        decreases sequence@.len() - k,
    {
        let sample = match cel_sample(file, layer, sequence[k]) {
            Ok(sample) => sample,
            Err(e) => {
                assert(frame_error(e, sequence@[k as int] as int));
                return Err(e);
            },
        };
        samples.push(sample);
        k = k + 1;
    }
    Ok(samples)
}


/// The normalized name of a file blend mode; an unknown mode reads as normal.
pub open spec fn blend_name(blend: FileBlend) -> Seq<char> {
    match blend {
        FileBlend::Normal => "normal"@,
        FileBlend::Multiply => "multiply"@,
        FileBlend::Screen => "screen"@,
        FileBlend::Overlay => "overlay"@,
        FileBlend::Darken => "darken"@,
        FileBlend::Lighten => "lighten"@,
        FileBlend::ColorDodge => "color dodge"@,
        FileBlend::ColorBurn => "color burn"@,
        FileBlend::HardLight => "hard light"@,
        FileBlend::SoftLight => "soft light"@,
        FileBlend::Difference => "difference"@,
        FileBlend::Exclusion => "exclusion"@,
        FileBlend::Hue => "hue"@,
        FileBlend::Saturation => "saturation"@,
        FileBlend::Color => "color"@,
        FileBlend::Luminosity => "luminosity"@,
        FileBlend::Addition => "linear dodge"@,
        FileBlend::Subtract => "subtract"@,
        FileBlend::Divide => "divide"@,
        FileBlend::Unknown => "normal"@,
    }
}

/// Names a file blend mode the way normalized layers spell it.
pub fn blend_mode_name(blend: FileBlend) -> (name: String)
    ensures
        name@ == blend_name(blend),
{
    let text: &str = match blend {
        FileBlend::Normal => "normal",
        FileBlend::Multiply => "multiply",
        FileBlend::Screen => "screen",
        FileBlend::Overlay => "overlay",
        FileBlend::Darken => "darken",
        FileBlend::Lighten => "lighten",
        FileBlend::ColorDodge => "color dodge",
        FileBlend::ColorBurn => "color burn",
        FileBlend::HardLight => "hard light",
        FileBlend::SoftLight => "soft light",
        FileBlend::Difference => "difference",
        FileBlend::Exclusion => "exclusion",
        FileBlend::Hue => "hue",
        FileBlend::Saturation => "saturation",
        FileBlend::Color => "color",
        FileBlend::Luminosity => "luminosity",
        FileBlend::Addition => "linear dodge",
        FileBlend::Subtract => "subtract",
        FileBlend::Divide => "divide",
        FileBlend::Unknown => "normal",
    };
    text.to_owned()
}

/// Reads one normal layer of a file as normalized layers: its cels over the playback
/// sequence become one static pixel layer, a group of variant layers, or one hidden
/// transparent pixel, as `build_cel_layers` decides, with the layer's name, opacity, blend
/// mode and visibility.
pub fn read_cel_layer(
    file: &AsepriteFile,
    layer_index: usize,
    sequence: &Vec<usize>,
    report: &mut InformationLossReport,
    next_id: &mut u32,
) -> (layer: Result<NormalizedLayer, ExportError>)
    requires
        layer_index < ase_layers(*file).len(),
        layer_index < u32::MAX,
        *old(next_id) + sequence@.len() + 1 <= u32::MAX,
        loss_count(old(report).entries@, InformationLossCode::CelZIndex, LossDisposition::Degraded) + sequence@.len() < usize::MAX,
        loss_count(old(report).entries@, InformationLossCode::EmptyPixelLayer, LossDisposition::Degraded) < usize::MAX,
        forall|key: (usize, usize)| #[trigger] ase_cels(*file).contains_key(key) ==> convertible(*file, ase_cels(*file)[key].7),
    ensures
        layer matches Err(e) ==> (e matches ExportError::AsepriteRead(m) && m@ == "normal layer has no layer handle"@)
            || exists|k: int| 0 <= k < sequence@.len() && #[trigger] frame_error(e, sequence@[k] as int),
        layer matches Ok(l) ==> exists|samples: Seq<Option<CelSample>>| {
            &&& samples.len() == sequence@.len()
            &&& forall|k: int| 0 <= k < sequence@.len() ==> #[trigger] sample_read(*file, layer_index, sequence@[k], samples[k])
            &&& #[trigger] cel_layers_built(l, ase_layers(*file)[layer_index as int].0, ase_layers(*file)[layer_index as int].3,
                blend_name(ase_layer_blend(*file, layer_index)), ase_layers(*file)[layer_index as int].5,
                sample_views(samples), *old(next_id), *final(next_id))
        },
        layer is Err ==> final(report).entries@ == old(report).entries@ && *final(next_id) == *old(next_id),
{
    let handle = match normal_layer(file, layer_index) {
        Some(handle) => handle,
        None => {
            return Err(ExportError::AsepriteRead("normal layer has no layer handle".to_owned()));
        },
    };
    let samples = layer_cel_samples(file, &handle, sequence)?;
    let ghost read = samples@;
    let (name, opacity, visible) = layer_header(file, layer_index);
    let blend = blend_mode_name(layer_blend(file, layer_index));
    let built = build_cel_layers(layer_index, name, opacity, blend, visible, samples, report, next_id);
    assert(forall|k: int| 0 <= k < sequence@.len() ==> #[trigger] sample_read(*file, layer_index, sequence@[k], read[k]));
    Ok(built)
}


/// Whether frame `k` of a normalized document is frame `source` of the file played `k`th:
/// numbered `k`, identified as `k + 1`, with the file frame's duration, disposed
/// automatically.
pub open spec fn played_frame(frame: NormalizedFrame, k: int, source: usize, durations: Seq<u16>) -> bool {
    &&& frame.index == k
    &&& frame.source_id == Some((k + 1) as u32)
    &&& frame.duration_ms == Some(durations[source as int] as u32)
    &&& frame.dispose matches Some(d) && d@ == "auto"@
}

/// The normalized document of a file read as RGBA8: its canvas, one frame per entry of the
/// playback sequence, the loop mode, the layers given, and Photoshop's animation resource
/// with every unify flag off.
pub fn document_header(
    file: &AsepriteFile,
    sequence: &Vec<usize>,
    root_layers: Vec<NormalizedLayer>,
    loop_mode: NormalizedLoopMode,
) -> (document: NormalizedDocument)
    requires
        sequence@.len() < u32::MAX,
        forall|k: int| 0 <= k < sequence@.len() ==> #[trigger] sequence@[k] < ase_frames(*file).len(),
    ensures
        document.canvas == (ase_canvas(*file).0 as u32, ase_canvas(*file).1 as u32),
        document.channels == Some(4u32),
        document.bits_per_channel == Some(8u32),
        document.color_mode matches Some(mode) && mode@ == "rgba"@,
        document.root_layers@ == root_layers@,
        document.frames@.len() == sequence@.len(),
        forall|k: int| 0 <= k < sequence@.len() ==> #[trigger] played_frame(document.frames@[k], k, sequence@[k], ase_frames(*file)),
        document.loop_mode == Some(loop_mode),
        document.active_frame_index is None,
        document.animation_resource_ids@ == seq![4000u16],
        document.animation_frame_flags == Some(AnimationFlags {
            propagate_frame_one: false,
            unify_layer_position: false,
            unify_layer_style: false,
            unify_layer_visibility: false,
        }),
{
    let (width, height) = file_canvas(file);
    let durations = file_frame_durations(file);
    let mut frames: Vec<NormalizedFrame> = Vec::new();
    let mut k: usize = 0;
    while k < sequence.len()
        invariant
            k <= sequence@.len(),
            sequence@.len() < u32::MAX,
            durations@ == ase_frames(*file),
            forall|j: int| 0 <= j < sequence@.len() ==> #[trigger] sequence@[j] < ase_frames(*file).len(),
            frames@.len() == k,
            forall|j: int| 0 <= j < k ==> #[trigger] played_frame(frames@[j], j, sequence@[j], durations@),
        decreases sequence@.len() - k,
    {
        let source = sequence[k];
        assert(source < durations@.len());
        frames.push(NormalizedFrame {
            index: k as u32,
            source_id: Some((k + 1) as u32),
            duration_ms: Some(durations[source] as u32),
            dispose: Some("auto".to_owned()),
        });
        k = k + 1;
    }
    let mut resource_ids: Vec<u16> = Vec::new();
    resource_ids.push(4000);
    assert(resource_ids@ =~= seq![4000u16]);
    NormalizedDocument {
        canvas: (width as u32, height as u32),
        channels: Some(4),
        bits_per_channel: Some(8),
        color_mode: Some("rgba".to_owned()),
        root_layers,
        frames,
        loop_mode: Some(loop_mode),
        active_frame_index: None,
        animation_resource_ids: resource_ids,
        animation_frame_flags: Some(AnimationFlags {
            propagate_frame_one: false,
            unify_layer_position: false,
            unify_layer_style: false,
            unify_layer_visibility: false,
        }),
    }
}

} // verus!
