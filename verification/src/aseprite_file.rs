//! The Aseprite file under construction, as the serializer sees it: its frames, layers,
//! cels and tags, and the calls of the `aseprite` crate that add to them.
use vstd::prelude::*;

use aseprite::{AsepriteError, AsepriteFile, BlendMode, CelKind, CelOptions, ColorMode, GroupRef, LayerOptions, LayerRef, LinkedCelOptions, LoopDirection, Pixels};
use crate::aseprite_timeline::{TagDirection, TagRange};

verus! {

#[verifier::external_type_specification]
#[verifier::external_body]
pub struct ExAsepriteFile(AsepriteFile);

#[verifier::external_type_specification]
#[verifier::external_body]
pub struct ExLayerRef(LayerRef);

#[verifier::external_type_specification]
#[verifier::external_body]
pub struct ExGroupRef(GroupRef);

#[verifier::external_type_specification]
#[verifier::external_body]
pub struct ExAsepriteError(AsepriteError);

#[verifier::external_type_specification]
#[verifier::external_body]
pub struct ExBlendMode(BlendMode);

#[verifier::external_type_specification]
#[verifier::external_body]
pub struct ExPixels(Pixels);

/// The color modes of an Aseprite file.
#[derive(Debug, Clone, Copy, PartialEq, Eq, Structural)]
pub enum AseColorMode {
    /// Four bytes per pixel.
    Rgba,
    /// A gray byte and an alpha byte per pixel.
    Grayscale,
    /// One palette index per pixel.
    Indexed,
    /// A mode this library does not read.
    Other,
}

/// The file's color mode.
pub uninterp spec fn ase_color_mode(file: AsepriteFile) -> AseColorMode;

/// The file's palette as RGBA colors.
pub uninterp spec fn ase_palette(file: AsepriteFile) -> Seq<(u8, u8, u8, u8)>;

/// The file's transparent palette index.
pub uninterp spec fn ase_transparent_index(file: AsepriteFile) -> u8;

/// The bytes a pixel buffer holds.
pub uninterp spec fn ase_pixel_bytes(pixels: Pixels) -> Seq<u8>;

/// The blend modes the serializer writes.
#[derive(Debug, Clone, Copy, PartialEq, Eq, Structural)]
pub enum AseBlend {
    Normal,
    Multiply,
    Screen,
    Overlay,
    Darken,
    Lighten,
    ColorDodge,
    ColorBurn,
    HardLight,
    SoftLight,
    Difference,
    Exclusion,
    Hue,
    Saturation,
    Color,
    Luminosity,
    Subtract,
    Divide,
}

/// A layer as the file holds it: name, whether it is a group, parent layer index, opacity,
/// blend mode and visibility.
pub type AseLayerView = (Seq<char>, bool, Option<usize>, u8, AseBlend, bool);

/// A cel as the file holds it: the source frame of a linked cel (`None` for pixels), x, y,
/// opacity, Z-Index, and for a pixel cel its width, height and RGBA bytes.
pub type AseCelView = (Option<usize>, i16, i16, u8, i16, u16, u16, Seq<u8>);

/// The durations of the file's frames, in order.
pub uninterp spec fn ase_frames(file: AsepriteFile) -> Seq<u16>;

/// The file's layers, in creation order.
pub uninterp spec fn ase_layers(file: AsepriteFile) -> Seq<AseLayerView>;

/// The file's pixel and linked cels, keyed by layer index and frame.
pub uninterp spec fn ase_cels(file: AsepriteFile) -> Map<(usize, usize), AseCelView>;

/// The file's tags: name, first and last frame, repeat count.
pub uninterp spec fn ase_tags(file: AsepriteFile) -> Seq<(Seq<char>, usize, usize, u16)>;

/// The canvas size the file was made with.
pub uninterp spec fn ase_canvas(file: AsepriteFile) -> (u16, u16);

/// No cels at all.
pub open spec fn no_cels() -> Map<(usize, usize), AseCelView> {
    Map::empty()
}

/// A normal layer of the file, with its index.
pub struct AseLayer {
    handle: LayerRef,
    index: usize,
}

impl AseLayer {
    /// The layer's index in the file.
    pub closed spec fn index_in_file(self) -> usize {
        self.index
    }

    /// The layer's index in the file.
    pub fn index(&self) -> (index: usize)
        ensures
            index == self.index_in_file(),
    {
        self.index
    }
}

/// A group layer of the file, with its index.
pub struct AseGroup {
    handle: GroupRef,
    index: usize,
}

impl AseGroup {
    /// The group's index in the file.
    pub closed spec fn index_in_file(self) -> usize {
        self.index
    }

    /// The group's index in the file.
    pub fn index(&self) -> (index: usize)
        ensures
            index == self.index_in_file(),
    {
        self.index
    }
}

/// `BlendMode` for a serializer blend mode, variant for variant.
#[verifier::external_body]
fn blend_value(blend: AseBlend) -> BlendMode {
    match blend {
        AseBlend::Normal => BlendMode::Normal, AseBlend::Multiply => BlendMode::Multiply, AseBlend::Screen => BlendMode::Screen,
        AseBlend::Overlay => BlendMode::Overlay, AseBlend::Darken => BlendMode::Darken, AseBlend::Lighten => BlendMode::Lighten,
        AseBlend::ColorDodge => BlendMode::ColorDodge, AseBlend::ColorBurn => BlendMode::ColorBurn, AseBlend::HardLight => BlendMode::HardLight,
        AseBlend::SoftLight => BlendMode::SoftLight, AseBlend::Difference => BlendMode::Difference, AseBlend::Exclusion => BlendMode::Exclusion,
        AseBlend::Hue => BlendMode::Hue, AseBlend::Saturation => BlendMode::Saturation, AseBlend::Color => BlendMode::Color,
        AseBlend::Luminosity => BlendMode::Luminosity, AseBlend::Subtract => BlendMode::Subtract, AseBlend::Divide => BlendMode::Divide,
    }
}

/// `AsepriteFile::new` in RGBA mode: an empty file with the given canvas.
#[verifier::external_body]
pub fn new_rgba_file(width: u16, height: u16) -> (file: AsepriteFile)
    ensures
        ase_canvas(file) == (width, height),
        ase_frames(file).len() == 0,
        ase_layers(file).len() == 0,
        ase_cels(file) == no_cels(),
        ase_tags(file).len() == 0,
{
    AsepriteFile::new(width, height, ColorMode::Rgba)
}

/// `AsepriteFile::add_frame`: appends a frame with the duration and returns its index.
#[verifier::external_body]
pub fn add_frame(file: &mut AsepriteFile, duration_ms: u16) -> (index: usize)
    ensures
        index == ase_frames(*old(file)).len(),
        ase_frames(*final(file)) == ase_frames(*old(file)).push(duration_ms),
        ase_layers(*final(file)) == ase_layers(*old(file)),
        ase_cels(*final(file)) == ase_cels(*old(file)),
        ase_tags(*final(file)) == ase_tags(*old(file)),
        ase_canvas(*final(file)) == ase_canvas(*old(file)),
{
    file.add_frame(duration_ms)
}

/// `AsepriteFile::add_tag_with` with forward direction over frames `0..=last`: refused when
/// the file has frames and `last` is not one of them, else the tag is appended.
#[verifier::external_body]
pub fn add_forward_tag(file: &mut AsepriteFile, name: &str, last: usize, repeat: u16) -> (added: Result<usize, AsepriteError>)
    ensures
        ase_frames(*final(file)) == ase_frames(*old(file)),
        ase_layers(*final(file)) == ase_layers(*old(file)),
        ase_cels(*final(file)) == ase_cels(*old(file)),
        ase_canvas(*final(file)) == ase_canvas(*old(file)),
        match added {
            Ok(index) => !(ase_frames(*old(file)).len() > 0 && last >= ase_frames(*old(file)).len())
                && index == ase_tags(*old(file)).len()
                && ase_tags(*final(file)) == ase_tags(*old(file)).push((name@, 0usize, last, repeat)),
            Err(_) => ase_frames(*old(file)).len() > 0 && last >= ase_frames(*old(file)).len()
                && ase_tags(*final(file)) == ase_tags(*old(file)),
        },
{
    file.add_tag_with(name, 0..=last, LoopDirection::Forward, repeat)
}

/// `AsepriteFile::add_layer_with`: appends a top-level normal layer.
#[verifier::external_body]
pub fn add_top_layer(file: &mut AsepriteFile, name: &str, opacity: u8, blend: AseBlend, visible: bool) -> (layer: AseLayer)
    ensures
        layer.index_in_file() == ase_layers(*old(file)).len(),
        ase_layers(*final(file)) == ase_layers(*old(file)).push((name@, false, None, opacity, blend, visible)),
        ase_frames(*final(file)) == ase_frames(*old(file)),
        ase_cels(*final(file)) == ase_cels(*old(file)),
        ase_tags(*final(file)) == ase_tags(*old(file)),
        ase_canvas(*final(file)) == ase_canvas(*old(file)),
{
    let options = LayerOptions { opacity, blend_mode: blend_value(blend), visible, ..LayerOptions::default() };
    let handle = file.add_layer_with(name, options);
    AseLayer { handle, index: handle.index() }
}

/// `AsepriteFile::add_layer_in_with`: appends a normal layer inside a group.
#[verifier::external_body]
pub fn add_layer_in(file: &mut AsepriteFile, name: &str, parent: &AseGroup, opacity: u8, blend: AseBlend, visible: bool) -> (layer: AseLayer)
    ensures
        layer.index_in_file() == ase_layers(*old(file)).len(),
        ase_layers(*final(file)) == ase_layers(*old(file)).push((name@, false, Some(parent.index_in_file()), opacity, blend, visible)),
        ase_frames(*final(file)) == ase_frames(*old(file)),
        ase_cels(*final(file)) == ase_cels(*old(file)),
        ase_tags(*final(file)) == ase_tags(*old(file)),
        ase_canvas(*final(file)) == ase_canvas(*old(file)),
{
    let options = LayerOptions { opacity, blend_mode: blend_value(blend), visible, ..LayerOptions::default() };
    let handle = file.add_layer_in_with(name, parent.handle, options);
    AseLayer { handle, index: handle.index() }
}

/// `AsepriteFile::add_group_with`: appends a top-level group layer.
#[verifier::external_body]
pub fn add_top_group(file: &mut AsepriteFile, name: &str, opacity: u8, blend: AseBlend, visible: bool) -> (group: AseGroup)
    ensures
        group.index_in_file() == ase_layers(*old(file)).len(),
        ase_layers(*final(file)) == ase_layers(*old(file)).push((name@, true, None, opacity, blend, visible)),
        ase_frames(*final(file)) == ase_frames(*old(file)),
        ase_cels(*final(file)) == ase_cels(*old(file)),
        ase_tags(*final(file)) == ase_tags(*old(file)),
        ase_canvas(*final(file)) == ase_canvas(*old(file)),
{
    let options = LayerOptions { opacity, blend_mode: blend_value(blend), visible, ..LayerOptions::default() };
    let handle = file.add_group_with(name, options);
    AseGroup { handle, index: handle.index() }
}

/// `AsepriteFile::add_group_in_with`: appends a group layer inside a group.
#[verifier::external_body]
pub fn add_group_in(file: &mut AsepriteFile, name: &str, parent: &AseGroup, opacity: u8, blend: AseBlend, visible: bool) -> (group: AseGroup)
    ensures
        group.index_in_file() == ase_layers(*old(file)).len(),
        ase_layers(*final(file)) == ase_layers(*old(file)).push((name@, true, Some(parent.index_in_file()), opacity, blend, visible)),
        ase_frames(*final(file)) == ase_frames(*old(file)),
        ase_cels(*final(file)) == ase_cels(*old(file)),
        ase_tags(*final(file)) == ase_tags(*old(file)),
        ase_canvas(*final(file)) == ase_canvas(*old(file)),
{
    let options = LayerOptions { opacity, blend_mode: blend_value(blend), visible, ..LayerOptions::default() };
    let handle = file.add_group_in_with(name, parent.handle, options);
    AseGroup { handle, index: handle.index() }
}

/// `Pixels::new` in RGBA mode: accepted exactly when the data holds four bytes per pixel.
#[verifier::external_body]
pub fn check_rgba_pixels(data: &Vec<u8>, width: u16, height: u16) -> (checked: Result<(), AsepriteError>)
    ensures
        checked is Ok <==> data@.len() == width * height * 4,
{
    Pixels::new(data.clone(), width, height, ColorMode::Rgba).map(|_| ())
}

/// `AsepriteFile::set_raw_cel`: refused for a frame the file does not have, else the cel of
/// the layer in the frame becomes these pixels at full opacity and Z-Index 0.
#[verifier::external_body]
pub fn set_raw_cel(file: &mut AsepriteFile, layer: &AseLayer, frame: usize, data: Vec<u8>, width: u16, height: u16, x: i16, y: i16)
    -> (set: Result<(), AsepriteError>)
    ensures
        ase_frames(*final(file)) == ase_frames(*old(file)),
        ase_layers(*final(file)) == ase_layers(*old(file)),
        ase_tags(*final(file)) == ase_tags(*old(file)),
        ase_canvas(*final(file)) == ase_canvas(*old(file)),
        set is Ok <==> frame < ase_frames(*old(file)).len(),
        set is Ok ==> ase_cels(*final(file)) == ase_cels(*old(file)).insert((layer.index_in_file(), frame), (None, x, y, 255u8, 0i16, width, height, data@)),
        set is Err ==> ase_cels(*final(file)) == ase_cels(*old(file)),
{
    file.set_raw_cel(layer.handle, frame, Pixels { data, width, height }, x, y)
}

/// `AsepriteFile::set_cel_with`: refused for a frame the file does not have, else the cel of
/// the layer in the frame becomes these pixels with the opacity and Z-Index.
#[verifier::external_body]
pub fn set_cel_with(
    file: &mut AsepriteFile,
    layer: &AseLayer,
    frame: usize,
    data: Vec<u8>,
    width: u16,
    height: u16,
    x: i16,
    y: i16,
    opacity: u8,
    z_index: i16,
) -> (set: Result<(), AsepriteError>)
    ensures
        ase_frames(*final(file)) == ase_frames(*old(file)),
        ase_layers(*final(file)) == ase_layers(*old(file)),
        ase_tags(*final(file)) == ase_tags(*old(file)),
        ase_canvas(*final(file)) == ase_canvas(*old(file)),
        set is Ok <==> frame < ase_frames(*old(file)).len(),
        set is Ok ==> ase_cels(*final(file)) == ase_cels(*old(file)).insert((layer.index_in_file(), frame), (None, x, y, opacity, z_index, width, height, data@)),
        set is Err ==> ase_cels(*final(file)) == ase_cels(*old(file)),
{
    file.set_cel_with(layer.handle, frame, CelOptions { pixels: Pixels { data, width, height }, x, y, opacity, z_index })
}

/// `AsepriteFile::set_linked_cel_with`: refused when the frame or the source frame is not in
/// the file, else the cel of the layer in the frame links to the source frame.
#[verifier::external_body]
pub fn set_linked_cel(file: &mut AsepriteFile, layer: &AseLayer, frame: usize, source_frame: usize, x: i16, y: i16, opacity: u8, z_index: i16)
    -> (set: Result<(), AsepriteError>)
    ensures
        ase_frames(*final(file)) == ase_frames(*old(file)),
        ase_layers(*final(file)) == ase_layers(*old(file)),
        ase_tags(*final(file)) == ase_tags(*old(file)),
        ase_canvas(*final(file)) == ase_canvas(*old(file)),
        set is Ok <==> frame < ase_frames(*old(file)).len() && source_frame < ase_frames(*old(file)).len(),
        set is Ok ==> ase_cels(*final(file)) == ase_cels(*old(file)).insert((layer.index_in_file(), frame),
            (Some(source_frame), x, y, opacity, z_index, 0u16, 0u16, Seq::empty())),
        set is Err ==> ase_cels(*final(file)) == ase_cels(*old(file)),
{
    file.set_linked_cel_with(layer.handle, frame, source_frame, LinkedCelOptions { x, y, opacity, z_index, ..Default::default() })
}

/// `AsepriteFile::write_to` into a byte vector: the file in Aseprite binary format.
#[verifier::external_body]
pub fn write_file_bytes(file: &AsepriteFile) -> (bytes: Result<Vec<u8>, AsepriteError>)
{
    let mut bytes = Vec::new();
    file.write_to(&mut bytes).map(|_| bytes)
}

/// The `Display` text of an `aseprite` error.
#[verifier::external_body]
pub fn aseprite_error_text(error: &AsepriteError) -> (text: String)
{
    error.to_string()
}


/// The number of frames of the file: `AsepriteFile::frames` counted.
#[verifier::external_body]
pub fn frame_count(file: &AsepriteFile) -> (count: usize)
    ensures
        count == ase_frames(*file).len(),
{
    file.frames().len()
}

/// `AsepriteFile::tags`: the file's tags in order with name, range and repeat count, and
/// each tag's loop direction (one the library does not play becomes `Other`). The direction
/// is not part of the tag model, so nothing is stated of it.
#[verifier::external_body]
pub fn file_tags(file: &AsepriteFile) -> (tags: Vec<TagRange>)
    ensures
        tags@.len() == ase_tags(*file).len(),
        forall|i: int| 0 <= i < tags@.len() ==> ((#[trigger] tags@[i]).name@, tags@[i].from_frame, tags@[i].to_frame, tags@[i].repeat)
            == ase_tags(*file)[i],
{
    file.tags().iter().map(|tag| TagRange {
        name: tag.name.clone(),
        from_frame: tag.from_frame,
        to_frame: tag.to_frame,
        direction: match tag.direction {
            LoopDirection::Forward => TagDirection::Forward,
            LoopDirection::Reverse => TagDirection::Reverse,
            LoopDirection::PingPong => TagDirection::PingPong,
            LoopDirection::PingPongReverse => TagDirection::PingPongReverse,
            _ => TagDirection::Other,
        },
        repeat: tag.repeat,
    }).collect()
}

/// `AsepriteFile::color_mode`, mode for mode.
#[verifier::external_body]
pub fn file_color_mode(file: &AsepriteFile) -> (mode: AseColorMode)
    ensures
        mode == ase_color_mode(*file),
{
    match file.color_mode() {
        ColorMode::Rgba => AseColorMode::Rgba,
        ColorMode::Grayscale => AseColorMode::Grayscale,
        ColorMode::Indexed => AseColorMode::Indexed,
        _ => AseColorMode::Other,
    }
}

/// `AsepriteFile::palette`, each color as its RGBA bytes.
#[verifier::external_body]
pub fn file_palette(file: &AsepriteFile) -> (palette: Vec<(u8, u8, u8, u8)>)
    ensures
        palette@ == ase_palette(*file),
{
    file.palette().iter().map(|color| (color.r, color.g, color.b, color.a)).collect()
}

/// `AsepriteFile::transparent_index`.
#[verifier::external_body]
pub fn file_transparent_index(file: &AsepriteFile) -> (index: u8)
    ensures
        index == ase_transparent_index(*file),
{
    file.transparent_index()
}

/// A copy of the bytes of a pixel buffer.
#[verifier::external_body]
pub fn pixel_bytes(pixels: &Pixels) -> (data: Vec<u8>)
    ensures
        data@ == ase_pixel_bytes(*pixels),
{
    pixels.data.clone()
}


/// A cel as the file stores it.
pub enum StoredCel {
    /// Pixel data in the file's color mode, with size, origin, opacity and Z-Index.
    Pixels { data: Vec<u8>, width: u16, height: u16, x: i16, y: i16, opacity: u8, z_index: i16 },
    /// A link to the cel of another frame of the layer, with origin, opacity and Z-Index.
    Linked { source_frame: usize, x: i16, y: i16, opacity: u8, z_index: i16 },
    /// A tilemap cel.
    Tilemap,
    /// A cel of a kind this library does not read.
    Other,
}

/// `AsepriteFile::layer_ref`: the normal or tilemap layer at an index, `None` for a group or
/// an index past the layers.
#[verifier::external_body]
pub fn normal_layer(file: &AsepriteFile, index: usize) -> (layer: Option<AseLayer>)
    ensures
        layer matches Some(l) ==> l.index_in_file() == index && index < ase_layers(*file).len(),
{
    file.layer_ref(index).map(|handle| AseLayer { handle, index })
}

/// `AsepriteFile::cel`: the cel of a layer in a frame as stored, kind for kind. A pixel cel
/// and a linked cel are the file's cel under that key; without one, or for a cel of another
/// kind, the key holds no pixel or linked cel.
#[verifier::external_body]
pub fn stored_cel(file: &AsepriteFile, layer: &AseLayer, frame: usize) -> (cel: Option<StoredCel>)
    ensures
        cel is None ==> !ase_cels(*file).contains_key((layer.index_in_file(), frame)),
        cel matches Some(StoredCel::Tilemap) ==> !ase_cels(*file).contains_key((layer.index_in_file(), frame)),
        cel matches Some(StoredCel::Other) ==> !ase_cels(*file).contains_key((layer.index_in_file(), frame)),
        cel matches Some(StoredCel::Pixels { data, width, height, x, y, opacity, z_index }) ==>
            ase_cels(*file).contains_key((layer.index_in_file(), frame))
            && ase_cels(*file)[(layer.index_in_file(), frame)] == (None::<usize>, x, y, opacity, z_index, width, height, data@),
        cel matches Some(StoredCel::Linked { source_frame, x, y, opacity, z_index }) ==>
            ase_cels(*file).contains_key((layer.index_in_file(), frame))
            && ase_cels(*file)[(layer.index_in_file(), frame)] == (Some(source_frame), x, y, opacity, z_index, 0u16, 0u16, Seq::<u8>::empty()),
{
    file.cel(layer.handle, frame).map(|cel| match &cel.kind {
        CelKind::Raw { pixels, x, y } | CelKind::Compressed { pixels, x, y, .. } => StoredCel::Pixels {
            data: pixels.data.clone(), width: pixels.width, height: pixels.height, x: *x, y: *y, opacity: cel.opacity, z_index: cel.z_index,
        },
        CelKind::Linked { source_frame, x, y } => StoredCel::Linked { source_frame: *source_frame, x: *x, y: *y, opacity: cel.opacity, z_index: cel.z_index },
        CelKind::Tilemap { .. } => StoredCel::Tilemap,
        _ => StoredCel::Other,
    })
}


/// The blend modes a file's layers may carry.
#[derive(Debug, Clone, Copy, PartialEq, Eq, Structural)]
pub enum FileBlend {
    Normal,
    Multiply,
    Screen,
    Overlay,
    Darken,
    Lighten,
    ColorDodge,
    ColorBurn,
    HardLight,
    SoftLight,
    Difference,
    Exclusion,
    Hue,
    Saturation,
    Color,
    Luminosity,
    Addition,
    Subtract,
    Divide,
    /// A blend mode this library does not know.
    Unknown,
}

/// The blend mode of the file's layer at an index.
pub uninterp spec fn ase_layer_blend(file: AsepriteFile, index: usize) -> FileBlend;

/// The blend mode of the file's layer at an index, mode for mode.
#[verifier::external_body]
pub fn layer_blend(file: &AsepriteFile, index: usize) -> (blend: FileBlend)
    requires
        index < ase_layers(*file).len(),
    ensures
        blend == ase_layer_blend(*file, index),
{
    match file.layers()[index].blend_mode {
        BlendMode::Normal => FileBlend::Normal, BlendMode::Multiply => FileBlend::Multiply, BlendMode::Screen => FileBlend::Screen, BlendMode::Overlay => FileBlend::Overlay, BlendMode::Darken => FileBlend::Darken, BlendMode::Lighten => FileBlend::Lighten, BlendMode::ColorDodge => FileBlend::ColorDodge, BlendMode::ColorBurn => FileBlend::ColorBurn, BlendMode::HardLight => FileBlend::HardLight, BlendMode::SoftLight => FileBlend::SoftLight, BlendMode::Difference => FileBlend::Difference, BlendMode::Exclusion => FileBlend::Exclusion, BlendMode::Hue => FileBlend::Hue, BlendMode::Saturation => FileBlend::Saturation, BlendMode::Color => FileBlend::Color, BlendMode::Luminosity => FileBlend::Luminosity, BlendMode::Addition => FileBlend::Addition, BlendMode::Subtract => FileBlend::Subtract, BlendMode::Divide => FileBlend::Divide,
        _ => FileBlend::Unknown,
    }
}

/// The name, opacity and visibility of the file's layer at an index.
#[verifier::external_body]
pub fn layer_header(file: &AsepriteFile, index: usize) -> (header: (String, u8, bool))
    requires
        index < ase_layers(*file).len(),
    ensures
        header.0@ == ase_layers(*file)[index as int].0,
        header.1 == ase_layers(*file)[index as int].3,
        header.2 == ase_layers(*file)[index as int].5,
{
    let layer = &file.layers()[index];
    (layer.name.clone(), layer.opacity, layer.visible)
}


/// The canvas size of the file: `AsepriteFile::width` and `AsepriteFile::height`.
#[verifier::external_body]
pub fn file_canvas(file: &AsepriteFile) -> (size: (u16, u16))
    ensures
        size == ase_canvas(*file),
{
    (file.width(), file.height())
}

/// The durations of the file's frames, in order: `AsepriteFile::frames`.
#[verifier::external_body]
pub fn file_frame_durations(file: &AsepriteFile) -> (durations: Vec<u16>)
    ensures
        durations@ == ase_frames(*file),
{
    file.frames().iter().map(|frame| frame.duration_ms).collect()
}

} // verus!
