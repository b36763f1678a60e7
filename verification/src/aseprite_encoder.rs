//! Serializing a normalized document into an Aseprite file: the timeline, the layer tree of
//! a logical-layer plan, and one cel per planned frame, linking identical cels on request.
use vstd::prelude::*;

use crate::aseprite_file::{
    add_forward_tag, add_frame, add_group_in, add_layer_in, add_top_group, add_top_layer, aseprite_error_text, ase_canvas, ase_cels,
    ase_frames, ase_layers, ase_tags, check_rgba_pixels, new_rgba_file, no_cels, set_cel_with, set_linked_cel, set_raw_cel,
    write_file_bytes, AseBlend, AseCelView, AseGroup, AseLayer, AseLayerView,
};
use crate::aseprite_writer::{
    format_limit, frame_duration, frame_durations, i16_value, layer_location, layer_path, loop_repeat, timeline_fault, u16_value, CelReuseReport, EncodedAseprite, WarningCollector, WriterError, WriterWarning,
    find_layer_location,
};
use crate::conversion::{same_cel, sources_hashed, CelReuseTracker, LinkedCelMode};
use crate::information_loss::{InformationLocation, InformationLossCode, LossDisposition};
use crate::logical_layers::diagnostics::{debug_string, debug_text};
use crate::logical_layers::write_plan::{forest_size, forest_tracks, lemma_forest_tracks_concat, lemma_forest_tracks_single, lemma_planned_shapes, node_size, node_tracks, planned_shape, planned_shapes, LayerWritePlan, PlanShape, PlannedNode};
use crate::logical_layers::{LogicalLayerTrack, PlannedCel};
use crate::model::{find_layer_in, layer_with_id, visible_pixel_ids, visible_pixel_ids_in, NormalizedDocument, NormalizedLayer, NormalizedLayerKind, NormalizedLoopMode, NormalizedPixels};
use crate::text::{append_signed, append_unsigned, decimal};
use aseprite::AsepriteFile;
use vstd::string::StringExecFns;

verus! {

/// The blend mode a blend-mode name maps to, when Aseprite has it.
pub open spec fn blend_of(name: Seq<char>) -> Option<AseBlend> {
    if name == "normal"@ {
        Some(AseBlend::Normal)
    } else if name == "multiply"@ {
        Some(AseBlend::Multiply)
    } else if name == "screen"@ {
        Some(AseBlend::Screen)
    } else if name == "overlay"@ {
        Some(AseBlend::Overlay)
    } else if name == "darken"@ {
        Some(AseBlend::Darken)
    } else if name == "lighten"@ {
        Some(AseBlend::Lighten)
    } else if name == "color dodge"@ {
        Some(AseBlend::ColorDodge)
    } else if name == "color burn"@ {
        Some(AseBlend::ColorBurn)
    } else if name == "hard light"@ {
        Some(AseBlend::HardLight)
    } else if name == "soft light"@ {
        Some(AseBlend::SoftLight)
    } else if name == "difference"@ {
        Some(AseBlend::Difference)
    } else if name == "exclusion"@ {
        Some(AseBlend::Exclusion)
    } else if name == "hue"@ {
        Some(AseBlend::Hue)
    } else if name == "saturation"@ {
        Some(AseBlend::Saturation)
    } else if name == "color"@ {
        Some(AseBlend::Color)
    } else if name == "luminosity"@ {
        Some(AseBlend::Luminosity)
    } else if name == "subtract"@ || name == "subtraction"@ {
        Some(AseBlend::Subtract)
    } else if name == "divide"@ {
        Some(AseBlend::Divide)
    } else {
        None
    }
}

/// The warning text for a blend mode that maps to normal.
pub open spec fn blend_warning_text(layer_id: u32, name: Seq<char>) -> Seq<char> {
    "layer "@ + decimal(layer_id as int) + " blend mode "@ + debug_text(name) + " mapped to normal"@
}

/// The layer ID a location names, zero without one.
pub open spec fn location_id(location: InformationLocation) -> u32 {
    match location.layer_id {
        Some(id) => id,
        None => 0,
    }
}

/// Whether a text is a given literal.
fn text_is(value: &String, literal: &str) -> (same: bool)
    ensures
        same == (value@ == literal@),
{
    let other = literal.to_string();
    proof {
        vstd::string::to_string_from_display_ensures_for_str(literal, other);
    }
    *value == other
}

/// A copy of a location.
fn copy_location(location: &InformationLocation) -> (copy: InformationLocation)
    ensures
        copy == *location,
{
    InformationLocation { layer_id: location.layer_id, path: location.path.clone() }
}

/// Maps a blend-mode name (normal when undeclared) to an Aseprite blend mode; a name
/// Aseprite lacks maps to normal with a warning.
pub fn blend_mode(value: &Option<String>, location: &InformationLocation, warnings: &mut WarningCollector) -> (blend: AseBlend)
    ensures
        match value {
            None => blend == AseBlend::Normal && final(warnings).entries@ == old(warnings).entries@,
            Some(name) => match blend_of(name@) {
                Some(mapped) => blend == mapped && final(warnings).entries@ == old(warnings).entries@,
                None => {
                    &&& blend == AseBlend::Normal
                    &&& final(warnings).entries@.len() == old(warnings).entries@.len() + 1
                    &&& final(warnings).entries@.drop_last() == old(warnings).entries@
                    &&& final(warnings).entries@.last().code == InformationLossCode::UnknownBlendMode
                    &&& final(warnings).entries@.last().disposition == LossDisposition::Degraded
                    &&& final(warnings).entries@.last().location == *location
                    &&& final(warnings).entries@.last().message@ == blend_warning_text(location_id(*location), name@)
                    &&& final(warnings).entries@.last().visual_impact
                    &&& final(warnings).entries@.last().editability_impact
                },
            },
        },
{
    let name = match value {
        None => {
            return AseBlend::Normal;
        },
        Some(name) => name,
    };
    if text_is(name, "normal") {
        AseBlend::Normal
    } else if text_is(name, "multiply") {
        AseBlend::Multiply
    } else if text_is(name, "screen") {
        AseBlend::Screen
    } else if text_is(name, "overlay") {
        AseBlend::Overlay
    } else if text_is(name, "darken") {
        AseBlend::Darken
    } else if text_is(name, "lighten") {
        AseBlend::Lighten
    } else if text_is(name, "color dodge") {
        AseBlend::ColorDodge
    } else if text_is(name, "color burn") {
        AseBlend::ColorBurn
    } else if text_is(name, "hard light") {
        AseBlend::HardLight
    } else if text_is(name, "soft light") {
        AseBlend::SoftLight
    } else if text_is(name, "difference") {
        AseBlend::Difference
    } else if text_is(name, "exclusion") {
        AseBlend::Exclusion
    } else if text_is(name, "hue") {
        AseBlend::Hue
    } else if text_is(name, "saturation") {
        AseBlend::Saturation
    } else if text_is(name, "color") {
        AseBlend::Color
    } else if text_is(name, "luminosity") {
        AseBlend::Luminosity
    } else if text_is(name, "subtract") || text_is(name, "subtraction") {
        AseBlend::Subtract
    } else if text_is(name, "divide") {
        AseBlend::Divide
    } else {
        let layer_id: u32 = match location.layer_id {
            Some(id) => id,
            None => 0,
        };
        let mut message = String::new();
        message.append("layer ");
        append_unsigned(&mut message, layer_id as u64);
        message.append(" blend mode ");
        let quoted = debug_string(name);
        message.append(quoted.as_str());
        message.append(" mapped to normal");
        warnings.push(InformationLossCode::UnknownBlendMode, LossDisposition::Degraded, copy_location(location), message, true, true);
        AseBlend::Normal
    }
}

/// The base opacity of a layer on the 8-bit scale: full when undeclared.
pub open spec fn layer_opacity(layer: NormalizedLayer) -> u8 {
    match layer.opacity {
        Some(value) => value,
        None => 255u8,
    }
}

/// Whether a layer is enabled in some frame.
pub open spec fn enabled_somewhere(layer: NormalizedLayer) -> bool {
    exists|f: int| 0 <= f < layer.frame_enabled@.len() && layer.frame_enabled@[f]
}

/// Whether a track has a cel in some frame.
pub open spec fn track_shown(track: LogicalLayerTrack) -> bool {
    exists|f: int| 0 <= f < track.cels@.len() && (#[trigger] track.cels@[f]) is Some
}

fn any_enabled(layer: &NormalizedLayer) -> (shown: bool)
    ensures
        shown == enabled_somewhere(*layer),
{
    let mut f: usize = 0;
    while f < layer.frame_enabled.len()
        invariant
            f <= layer.frame_enabled@.len(),
            forall|g: int| 0 <= g < f ==> !layer.frame_enabled@[g],
        decreases layer.frame_enabled@.len() - f,
    {
        if layer.frame_enabled[f] {
            return true;
        }
        f = f + 1;
    }
    false
}

fn any_cel(track: &LogicalLayerTrack) -> (shown: bool)
    ensures
        shown == track_shown(*track),
{
    let mut f: usize = 0;
    while f < track.cels.len()
        invariant
            f <= track.cels@.len(),
            forall|g: int| 0 <= g < f ==> (#[trigger] track.cels@[g]) is None,
        decreases track.cels@.len() - f,
    {
        if track.cels[f].is_some() {
            return true;
        }
        f = f + 1;
    }
    false
}

/// Whether every node of a planned forest can be written: each track node names a track
/// of the plan whose representative layer the document holds.
pub open spec fn node_writable(node: PlannedNode, document: NormalizedDocument, plan: LayerWritePlan) -> bool
    decreases node,
{
    match node {
        PlannedNode::Group { children, .. } => nodes_writable(children@, document, plan),
        PlannedNode::Track { track_id } => track_id < plan.tracks@.len()
            && layer_with_id(document.root_layers@, plan.tracks@[track_id as int].representative_source_layer_id) is Some,
    }
}

/// Whether every node of a list of planned nodes can be written.
pub open spec fn nodes_writable(nodes: Seq<PlannedNode>, document: NormalizedDocument, plan: LayerWritePlan) -> bool
    decreases nodes,
{
    nodes.len() == 0 || (node_writable(nodes[0], document, plan) && nodes_writable(nodes.subrange(1, nodes.len() as int), document, plan))
}

/// A planned track bound to the Aseprite layer written for it.
pub struct PlannedBinding {
    /// Index of the track in the plan.
    pub track: usize,
    /// The layer written for the track.
    pub layer: AseLayer,
    /// Source location of the track's representative layer.
    pub location: InformationLocation,
}

/// The tracks of a list of bindings, in order.
pub open spec fn bound_tracks(bindings: Seq<PlannedBinding>) -> Seq<usize> {
    bindings.map_values(|binding: PlannedBinding| binding.track)
}

/// Whether bindings name tracks of the plan with layers of the file named after them, in
/// increasing layer order from `low` on.
pub open spec fn bindings_wf(bindings: Seq<PlannedBinding>, plan: LayerWritePlan, layers: Seq<(Seq<char>, bool, Option<usize>, u8, AseBlend, bool)>, low: int) -> bool {
    &&& forall|b: int| 0 <= b < bindings.len() ==> {
        let binding = #[trigger] bindings[b];
        &&& binding.track < plan.tracks@.len()
        &&& low <= binding.layer.index_in_file() < layers.len()
        &&& layers[binding.layer.index_in_file() as int].0 == plan.tracks@[binding.track as int].name@
        &&& !layers[binding.layer.index_in_file() as int].1
    }
    &&& forall|a: int, b: int| 0 <= a < b < bindings.len() ==> (#[trigger] bindings[a]).layer.index_in_file() < (#[trigger] bindings[b]).layer.index_in_file()
}

/// The opacity and blend mode a planned node takes from its source layer, if the document
/// has it: full opacity and normal blending otherwise.
pub open spec fn sourced_style(source: Option<NormalizedLayer>) -> (u8, AseBlend) {
    match source {
        Some(layer) => (written_view(layer, None).3, written_blend(layer)),
        None => (255u8, AseBlend::Normal),
    }
}

/// The file layer written for a planned node below `parent`: a visible group named by the
/// node with its source group's style, or a layer named after its track with its
/// representative layer's style, visible when the track has a cel.
pub open spec fn planned_view(node: PlannedNode, parent: Option<usize>, document: NormalizedDocument, plan: LayerWritePlan) -> AseLayerView {
    match node {
        PlannedNode::Group { name, source_layer_id, .. } => {
            let style = sourced_style(match source_layer_id {
                Some(id) => layer_with_id(document.root_layers@, id),
                None => None,
            });
            (name@, true, parent, style.0, style.1, true)
        },
        PlannedNode::Track { track_id } => {
            let track = plan.tracks@[track_id as int];
            let style = sourced_style(layer_with_id(document.root_layers@, track.representative_source_layer_id));
            (track.name@, false, parent, style.0, style.1, track_shown(track))
        },
    }
}

/// The file layers a planned node writes below `parent`, the first at index `at`: the node,
/// then for a group its children with the group as parent.
pub open spec fn planned_node_views(node: PlannedNode, parent: Option<usize>, at: int, document: NormalizedDocument, plan: LayerWritePlan)
    -> Seq<AseLayerView>
    decreases node,
{
    seq![planned_view(node, parent, document, plan)] + match node {
        PlannedNode::Group { children, .. } => planned_nodes_views(children@, Some(at as usize), at + 1, document, plan),
        PlannedNode::Track { .. } => Seq::empty(),
    }
}

/// The file layers a list of planned sibling nodes writes below `parent`, from index `at`.
pub open spec fn planned_nodes_views(nodes: Seq<PlannedNode>, parent: Option<usize>, at: int, document: NormalizedDocument, plan: LayerWritePlan)
    -> Seq<AseLayerView>
    decreases nodes,
{
    if nodes.len() == 0 {
        Seq::empty()
    } else {
        planned_node_views(nodes[0], parent, at, document, plan)
            + planned_nodes_views(nodes.subrange(1, nodes.len() as int), parent, at + node_size(planned_shape(nodes[0])), document, plan)
    }
}

/// Writes the layers of a planned forest below a group (or at the top level), one layer per
/// node in tree order, and binds each track node to its layer.
#[verifier::rlimit(60)]
pub fn create_planned_nodes(
    file: &mut AsepriteFile,
    nodes: &Vec<PlannedNode>,
    parent: Option<&AseGroup>,
    document: &NormalizedDocument,
    plan: &LayerWritePlan,
    bindings: &mut Vec<PlannedBinding>,
    warnings: &mut WarningCollector,
) -> (written: Result<(), WriterError>)
    requires
        bindings_wf(old(bindings)@, *plan, ase_layers(*old(file)), 0),
    ensures
        ase_frames(*final(file)) == ase_frames(*old(file)),
        ase_cels(*final(file)) == ase_cels(*old(file)),
        ase_tags(*final(file)) == ase_tags(*old(file)),
        ase_canvas(*final(file)) == ase_canvas(*old(file)),
        ase_layers(*final(file)).len() >= ase_layers(*old(file)).len(),
        ase_layers(*final(file)).take(ase_layers(*old(file)).len() as int) == ase_layers(*old(file)),
        final(bindings)@.len() >= old(bindings)@.len(),
        final(bindings)@.take(old(bindings)@.len() as int) == old(bindings)@,
        bindings_wf(final(bindings)@, *plan, ase_layers(*final(file)), 0),
        forall|b: int| old(bindings)@.len() <= b < final(bindings)@.len()
            ==> ase_layers(*old(file)).len() <= (#[trigger] final(bindings)@[b]).layer.index_in_file(),
        written is Ok <==> nodes_writable(nodes@, *document, *plan),
        written is Ok ==> ase_layers(*final(file)).len() == ase_layers(*old(file)).len() + forest_size(planned_shapes(nodes@)),
        written is Ok ==> bound_tracks(final(bindings)@.skip(old(bindings)@.len() as int)) == forest_tracks(planned_shapes(nodes@)),
        written is Ok ==> ase_layers(*final(file)) == ase_layers(*old(file)) + planned_nodes_views(nodes@,
            match parent { Some(p) => Some(p.index_in_file()), None => None }, ase_layers(*old(file)).len() as int, *document, *plan),
    decreases nodes@,
{
    proof {
        lemma_planned_shapes(nodes@);
    }
    let ghost shapes = planned_shapes(nodes@);
    let ghost start = ase_layers(*file).len();
    let ghost start_file = *file;
    let ghost start_bindings = bindings@;
    let mut i: usize = 0;
    assert(shapes.subrange(0, shapes.len() as int) =~= shapes);
    assert(nodes@.subrange(0, nodes@.len() as int) =~= nodes@);
    assert(ase_layers(*file).take(start as int) =~= ase_layers(*file));
    assert(bindings@.take(start_bindings.len() as int) =~= bindings@);
    assert(shapes.take(0) =~= Seq::<PlanShape>::empty());
    assert(bound_tracks(bindings@.skip(start_bindings.len() as int)) =~= Seq::<usize>::empty());
    assert(ase_layers(*file) + planned_nodes_views(nodes@, match parent { Some(p) => Some(p.index_in_file()), None => None }, start as int, *document, *plan)
        =~= ase_layers(start_file) + planned_nodes_views(nodes@, match parent { Some(p) => Some(p.index_in_file()), None => None }, start as int, *document, *plan));
    while i < nodes.len()
        invariant
            i <= nodes@.len(),
            shapes == planned_shapes(nodes@),
            shapes.len() == nodes@.len(),
            forall|q: int| 0 <= q < nodes@.len() ==> #[trigger] shapes[q] == planned_shape(nodes@[q]),
            start == ase_layers(start_file).len(),
            start_file == *old(file),
            start_bindings == old(bindings)@,
            ase_frames(*file) == ase_frames(start_file),
            ase_cels(*file) == ase_cels(start_file),
            ase_tags(*file) == ase_tags(start_file),
            ase_canvas(*file) == ase_canvas(start_file),
            ase_layers(*file).len() >= start,
            ase_layers(*file).take(start as int) == ase_layers(start_file),
            ase_layers(*file).len() + forest_size(shapes.subrange(i as int, shapes.len() as int)) == start + forest_size(shapes),
            bindings@.len() >= start_bindings.len(),
            bindings@.take(start_bindings.len() as int) == start_bindings,
            bindings_wf(bindings@, *plan, ase_layers(*file), 0),
            forall|b: int| start_bindings.len() <= b < bindings@.len() ==> start <= (#[trigger] bindings@[b]).layer.index_in_file(),
            nodes_writable(nodes@, *document, *plan) == nodes_writable(nodes@.subrange(i as int, nodes@.len() as int), *document, *plan),
            bound_tracks(bindings@.skip(start_bindings.len() as int)) == forest_tracks(shapes.take(i as int)),
            ase_layers(*file) + planned_nodes_views(nodes@.subrange(i as int, nodes@.len() as int),
                match parent { Some(p) => Some(p.index_in_file()), None => None }, ase_layers(*file).len() as int, *document, *plan)
                == ase_layers(start_file) + planned_nodes_views(nodes@, match parent { Some(p) => Some(p.index_in_file()), None => None },
                    start as int, *document, *plan),
        decreases nodes@.len() - i,
    {
        let ghost tail = shapes.subrange(i as int, shapes.len() as int);
        let ghost node_tail = nodes@.subrange(i as int, nodes@.len() as int);
        let ghost before_file = *file;
        let ghost before_bindings = bindings@;
        proof {
            assert(tail[0] == shapes[i as int]);
            assert(tail.subrange(1, tail.len() as int) =~= shapes.subrange(i as int + 1, shapes.len() as int));
            assert(node_tail[0] == nodes@[i as int]);
            assert(node_tail.subrange(1, node_tail.len() as int) =~= nodes@.subrange(i as int + 1, nodes@.len() as int));
            assert(nodes_writable(node_tail, *document, *plan) == (node_writable(nodes@[i as int], *document, *plan)
                && nodes_writable(nodes@.subrange(i as int + 1, nodes@.len() as int), *document, *plan)));
        }
        match &nodes[i] {
            PlannedNode::Group { name, source_layer_id, children } => {
                let (opacity, blend) = match source_layer_id {
                    Some(id) => match find_layer_in(&document.root_layers, *id) {
                        Some(source) => {
                            let location = find_layer_location(document, source.id);
                            let blend = blend_mode(&source.blend_mode, &location, warnings);
                            let opacity: u8 = match source.opacity {
                                Some(value) => value,
                                None => 255,
                            };
                            (opacity, blend)
                        },
                        None => (255u8, AseBlend::Normal),
                    },
                    None => (255u8, AseBlend::Normal),
                };
                let group = match parent {
                    Some(p) => add_group_in(file, name.as_str(), p, opacity, blend, true),
                    None => add_top_group(file, name.as_str(), opacity, blend, true),
                };
                let ghost mid_file = *file;
                proof {
                    assert(ase_layers(mid_file) == ase_layers(before_file).push(planned_view(nodes@[i as int], match parent { Some(p) => Some(p.index_in_file()), None => None }, *document, *plan)));
                    assert(decreases_to!(nodes@ => nodes@[i as int]));
                    assert forall|b: int| 0 <= b < bindings@.len() implies ase_layers(*file)[(#[trigger] bindings@[b]).layer.index_in_file() as int]
                        == ase_layers(before_file)[bindings@[b].layer.index_in_file() as int] by {}
                    assert(ase_layers(*file).take(start as int) =~= ase_layers(start_file));
                }
                let done = create_planned_nodes(file, children, Some(&group), document, plan, bindings, warnings);
                proof {
                    assert(ase_layers(*file).take(start as int) =~= ase_layers(mid_file).take(ase_layers(mid_file).len() as int).take(start as int));
                    assert(bindings@.take(start_bindings.len() as int) =~= bindings@.take(before_bindings.len() as int).take(start_bindings.len() as int));
                    assert forall|b: int| start_bindings.len() <= b < bindings@.len() implies start <= (#[trigger] bindings@[b]).layer.index_in_file() by {
                        if b < before_bindings.len() {
                            assert(bindings@.take(before_bindings.len() as int)[b] == bindings@[b]);
                        }
                    }
                    if done is Ok {
                        let added = bindings@.skip(before_bindings.len() as int);
                        assert(bindings@.take(before_bindings.len() as int) == before_bindings);
                        assert(bindings@.skip(start_bindings.len() as int) =~= before_bindings.skip(start_bindings.len() as int) + added);
                        assert(bound_tracks(bindings@.skip(start_bindings.len() as int)) =~= bound_tracks(before_bindings.skip(start_bindings.len() as int)) + bound_tracks(added));
                        assert(node_tracks(shapes[i as int]) == forest_tracks(planned_shapes(children@)));
                        assert(ase_layers(*file) =~= ase_layers(before_file) + planned_node_views(nodes@[i as int], match parent { Some(p) => Some(p.index_in_file()), None => None },
                            ase_layers(before_file).len() as int, *document, *plan));
                    }
                }
                match done {
                    Ok(()) => {},
                    Err(e) => {
                        assert(ase_frames(*file) == ase_frames(mid_file));
                        assert(ase_frames(mid_file) == ase_frames(before_file));
                        assert(ase_cels(*file) == ase_cels(mid_file));
                        assert(ase_cels(mid_file) == ase_cels(before_file));
                        return Err(e);
                    },
                }
            },
            PlannedNode::Track { track_id } => {
                if *track_id >= plan.tracks.len() {
                    let mut message = String::new();
                    message.append("logical track ");
                    append_unsigned(&mut message, *track_id as u64);
                    message.append(" is not present in plan");
                    return Err(WriterError::Aseprite(message));
                }
                let track = &plan.tracks[*track_id];
                let source = match find_layer_in(&document.root_layers, track.representative_source_layer_id) {
                    Some(source) => source,
                    None => {
                        return Err(WriterError::InvalidPixels {
                            layer_id: track.representative_source_layer_id,
                            message: "logical track representative layer was not found".to_owned(),
                        });
                    },
                };
                let location = find_layer_location(document, source.id);
                let blend = blend_mode(&source.blend_mode, &location, warnings);
                let opacity: u8 = match source.opacity {
                    Some(value) => value,
                    None => 255,
                };
                let visible = any_cel(track);
                let layer = match parent {
                    Some(p) => add_layer_in(file, track.name.as_str(), p, opacity, blend, visible),
                    None => add_top_layer(file, track.name.as_str(), opacity, blend, visible),
                };
                let ghost index = layer.index_in_file();
                bindings.push(PlannedBinding { track: *track_id, layer, location });
                proof {
                    assert(visible == track_shown(plan.tracks@[*track_id as int]));
                    assert(ase_layers(*file) =~= ase_layers(before_file) + planned_node_views(nodes@[i as int], match parent { Some(p) => Some(p.index_in_file()), None => None },
                        ase_layers(before_file).len() as int, *document, *plan));
                    assert(bindings@.take(start_bindings.len() as int) =~= start_bindings);
                    assert(bindings@.skip(start_bindings.len() as int) =~= before_bindings.skip(start_bindings.len() as int).push(bindings@.last()));
                    assert(bound_tracks(bindings@.skip(start_bindings.len() as int)) =~= bound_tracks(before_bindings.skip(start_bindings.len() as int)) + seq![*track_id]);
                    assert(node_tracks(shapes[i as int]) == seq![*track_id]);
                    assert(ase_layers(*file).take(start as int) =~= ase_layers(start_file));
                    assert(bindings_wf(bindings@, *plan, ase_layers(*file), 0)) by {
                        assert forall|b: int| 0 <= b < bindings@.len() implies {
                            let binding = #[trigger] bindings@[b];
                            &&& binding.track < plan.tracks@.len()
                            &&& 0 <= binding.layer.index_in_file() < ase_layers(*file).len()
                            &&& ase_layers(*file)[binding.layer.index_in_file() as int].0 == plan.tracks@[binding.track as int].name@
                            &&& !ase_layers(*file)[binding.layer.index_in_file() as int].1
                        } by {
                            if b < before_bindings.len() {
                                assert(bindings@[b] == before_bindings[b]);
                            }
                        }
                    }
                }
            },
        }
        proof {
            assert(forest_size(tail) == node_size(shapes[i as int]) + forest_size(shapes.subrange(i as int + 1, shapes.len() as int)));
            assert(planned_nodes_views(node_tail, match parent { Some(p) => Some(p.index_in_file()), None => None }, ase_layers(before_file).len() as int, *document, *plan)
                == planned_node_views(nodes@[i as int], match parent { Some(p) => Some(p.index_in_file()), None => None }, ase_layers(before_file).len() as int, *document, *plan)
                + planned_nodes_views(nodes@.subrange(i as int + 1, nodes@.len() as int), match parent { Some(p) => Some(p.index_in_file()), None => None },
                    ase_layers(before_file).len() as int + node_size(planned_shape(nodes@[i as int])), *document, *plan));
            assert(ase_layers(*file) + planned_nodes_views(nodes@.subrange(i as int + 1, nodes@.len() as int), match parent { Some(p) => Some(p.index_in_file()), None => None },
                ase_layers(*file).len() as int, *document, *plan)
                =~= ase_layers(before_file) + planned_nodes_views(node_tail, match parent { Some(p) => Some(p.index_in_file()), None => None }, ase_layers(before_file).len() as int, *document, *plan));
            assert(shapes.take(i as int + 1) =~= shapes.take(i as int) + seq![shapes[i as int]]);
            lemma_forest_tracks_concat(shapes.take(i as int), seq![shapes[i as int]]);
            lemma_forest_tracks_single(shapes[i as int]);
        }
        i = i + 1;
    }
    proof {
        assert(shapes.subrange(nodes@.len() as int, shapes.len() as int) =~= Seq::<PlanShape>::empty());
        assert(nodes@.subrange(nodes@.len() as int, nodes@.len() as int) =~= Seq::<PlannedNode>::empty());
        assert(shapes.take(nodes@.len() as int) =~= shapes);
        assert(ase_layers(*file) + planned_nodes_views(Seq::<PlannedNode>::empty(), match parent { Some(p) => Some(p.index_in_file()), None => None }, ase_layers(*file).len() as int, *document, *plan)
            =~= ase_layers(*file));
    }
    Ok(())
}


/// The integral offset a layer authors for frame `f`, zero without one.
pub open spec fn frame_offset(layer: NormalizedLayer, f: int) -> (int, int) {
    if 0 <= f < layer.frame_offsets@.len() {
        match layer.frame_offsets@[f] {
            Some((dx, dy)) => (dx as int, dy as int),
            None => (0, 0),
        }
    } else {
        (0, 0)
    }
}

/// The opacity a layer's cel has in frame `f`: the frame's override, else the base opacity.
pub open spec fn cel_opacity(layer: NormalizedLayer, f: int) -> u8 {
    if 0 <= f < layer.frame_opacity@.len() && layer.frame_opacity@[f] is Some {
        layer.frame_opacity@[f]->0
    } else {
        layer_opacity(layer)
    }
}

/// Whether a value fits a signed 16-bit coordinate.
pub open spec fn fits_i16(value: int) -> bool {
    i16::MIN <= value <= i16::MAX
}

/// Whether a value fits a signed 32-bit coordinate.
pub open spec fn fits_i32(value: int) -> bool {
    i32::MIN <= value <= i32::MAX
}

/// Whether the planned cel of frame `f` can be written: it is for frame `f`, its source
/// layer is in the document with a state for the frame and pixels, its position with the
/// frame offset fits the coordinates, and its pixels fit Aseprite's limits and sizes.
pub open spec fn cel_writable(document: NormalizedDocument, cel: PlannedCel, f: int) -> bool {
    let found = layer_with_id(document.root_layers@, cel.source_layer_id);
    &&& cel.source_frame_index == f
    &&& found is Some
    &&& layer_cel_writable(found->0, f)
}

/// Whether the cel of a pixel layer in frame `f` can be written: the layer has a state for
/// the frame and pixels, its position with the frame offset fits the coordinates, and its
/// pixels fit Aseprite's limits and sizes.
pub open spec fn layer_cel_writable(layer: NormalizedLayer, f: int) -> bool {
    &&& f < layer.frame_enabled@.len()
    &&& layer.pixels is Some
    &&& {
        let px = layer.pixels->0;
        let x = px.left + frame_offset(layer, f).0;
        let y = px.top + frame_offset(layer, f).1;
        &&& fits_i32(x) && fits_i32(y) && fits_i16(x) && fits_i16(y)
        &&& px.width <= u16::MAX && px.height <= u16::MAX
        &&& px.data@.len() == px.width * px.height * 4
    }
}

/// Whether the cel stored for a planned cel of frame `f` on layer `index` is right: at the
/// source's position with the frame offset, with the frame's opacity and the planned
/// Z-Index, holding the source pixels or linked to an earlier frame of the same layer whose
/// cel holds the same pixels.
pub open spec fn cel_stored(
    cels: Map<(usize, usize), AseCelView>,
    index: usize,
    f: usize,
    document: NormalizedDocument,
    cel: PlannedCel,
) -> bool {
    layer_cel_stored(cels, index, f, layer_with_id(document.root_layers@, cel.source_layer_id)->0, cel.z_index)
}

/// Whether the cel stored for a pixel layer in frame `f` on file layer `index` is right: at
/// the layer's position with the frame offset, with the frame's opacity and the Z-Index,
/// holding the layer's pixels or linked to an earlier frame of the same file layer whose
/// cel holds the same pixels.
pub open spec fn layer_cel_stored(
    cels: Map<(usize, usize), AseCelView>,
    index: usize,
    f: usize,
    layer: NormalizedLayer,
    z_index: i16,
) -> bool {
    let px = layer.pixels->0;
    let view = cels[(index, f)];
    &&& cels.contains_key((index, f))
    &&& view.1 == px.left + frame_offset(layer, f as int).0
    &&& view.2 == px.top + frame_offset(layer, f as int).1
    &&& view.3 == cel_opacity(layer, f as int)
    &&& view.4 == z_index
    &&& match view.0 {
        None => view.5 == px.width && view.6 == px.height && view.7 == px.data@,
        Some(source) => {
            &&& source < f
            &&& cels.contains_key((index, source))
            &&& cels[(index, source)].0 is None
            &&& cels[(index, source)].5 == px.width
            &&& cels[(index, source)].6 == px.height
            &&& cels[(index, source)].7 == px.data@
        },
    }
}

/// Whether a tracker's sources are pixel cels of layer `index`, before frame `f`, holding
/// their pixels.
pub open spec fn tracker_in_file(tracker: CelReuseTracker, cels: Map<(usize, usize), AseCelView>, index: usize, f: int) -> bool {
    &&& sources_hashed(tracker.sources@)
    &&& forall|s: int| 0 <= s < tracker.sources@.len() ==> {
        let source = #[trigger] tracker.sources@[s];
        &&& source.source_frame < f
        &&& cels.contains_key((index, source.source_frame))
        &&& cels[(index, source.source_frame)].0 is None
        &&& cels[(index, source.source_frame)].5 == source.width
        &&& cels[(index, source.source_frame)].6 == source.height
        &&& cels[(index, source.source_frame)].7 == source.rgba@
    }
}

/// Computes a cel origin from the pixels' origin and the frame offset.
fn cel_position(pixels: &NormalizedPixels, layer: &NormalizedLayer, f: usize) -> (position: Result<(i16, i16), WriterError>)
    ensures
        match position {
            Ok((x, y)) => {
                let off = frame_offset(*layer, f as int);
                &&& fits_i32(pixels.left + off.0) && fits_i32(pixels.top + off.1)
                &&& fits_i16(pixels.left + off.0) && fits_i16(pixels.top + off.1)
                &&& x == pixels.left + off.0 && y == pixels.top + off.1
            },
            Err(_) => {
                let off = frame_offset(*layer, f as int);
                !(fits_i32(pixels.left + off.0) && fits_i32(pixels.top + off.1) && fits_i16(pixels.left + off.0) && fits_i16(pixels.top + off.1))
            },
        },
{
    let (dx, dy): (i32, i32) = if f < layer.frame_offsets.len() {
        match layer.frame_offsets[f] {
            Some(offset) => offset,
            None => (0, 0),
        }
    } else {
        (0, 0)
    };
    let x = match pixels.left.checked_add(dx) {
        Some(v) => v,
        None => {
            return Err(WriterError::InvalidCoordinate { field: "cel x".to_owned(), value: sum_text(pixels.left, dx) });
        },
    };
    let y = match pixels.top.checked_add(dy) {
        Some(v) => v,
        None => {
            return Err(WriterError::InvalidCoordinate { field: "cel y".to_owned(), value: sum_text(pixels.top, dy) });
        },
    };
    let x16 = i16_value("cel x", x)?;
    let y16 = i16_value("cel y", y)?;
    Ok((x16, y16))
}

/// The text of a coordinate sum that overflowed: both terms in decimal, joined by ` + `.
pub open spec fn sum_view(base: i32, offset: i32) -> Seq<char> {
    decimal(base as int) + " + "@ + decimal(offset as int)
}

fn sum_text(base: i32, offset: i32) -> (text: String)
    ensures
        text@ == sum_view(base, offset),
{
    let mut text = String::new();
    append_signed(&mut text, base as i64);
    text.append(" + ");
    append_signed(&mut text, offset as i64);
    text
}

/// The message for a frame without a state.
pub open spec fn missing_frame_text(f: int) -> Seq<char> {
    "missing frame state "@ + decimal(f)
}

/// Writes the cel of a pixel layer in frame `f` on a file layer: the pixels at the layer's
/// position with the frame offset, with the frame's opacity and the Z-Index, or a link to
/// the first earlier cel of the file layer with the same pixels when the tracker links
/// identical cels.
pub fn emit_layer_cel(
    file: &mut AsepriteFile,
    layer: &AseLayer,
    f: usize,
    source: &NormalizedLayer,
    z_index: i16,
    tracker: &mut CelReuseTracker,
) -> (emitted: Result<bool, WriterError>)
    requires
        f < ase_frames(*old(file)).len(),
        !ase_cels(*old(file)).contains_key((layer.index_in_file(), f)),
        tracker_in_file(*old(tracker), ase_cels(*old(file)), layer.index_in_file(), f as int),
        old(tracker).report.pixel_cel_count < usize::MAX,
        old(tracker).report.linked_cel_count < usize::MAX,
    ensures
        ase_frames(*final(file)) == ase_frames(*old(file)),
        ase_layers(*final(file)) == ase_layers(*old(file)),
        ase_tags(*final(file)) == ase_tags(*old(file)),
        ase_canvas(*final(file)) == ase_canvas(*old(file)),
        emitted is Ok <==> layer_cel_writable(*source, f as int),
        emitted is Err ==> ase_cels(*final(file)) == ase_cels(*old(file)),
        emitted matches Ok(linked) ==> {
            &&& linked == ase_cels(*final(file))[(layer.index_in_file(), f)].0 is Some
            &&& layer_cel_stored(ase_cels(*final(file)), layer.index_in_file(), f, *source, z_index)
            &&& ase_cels(*final(file)) == ase_cels(*old(file)).insert((layer.index_in_file(), f), ase_cels(*final(file))[(layer.index_in_file(), f)])
            &&& tracker_in_file(*final(tracker), ase_cels(*final(file)), layer.index_in_file(), f as int + 1)
            &&& final(tracker).mode == old(tracker).mode
            &&& (ase_cels(*final(file))[(layer.index_in_file(), f)].0 is Some ==> old(tracker).mode == LinkedCelMode::Identical)
            &&& final(tracker).report.pixel_cel_count + final(tracker).report.linked_cel_count
                == old(tracker).report.pixel_cel_count + old(tracker).report.linked_cel_count + 1
        },
{
    if f >= source.frame_enabled.len() {
        let mut message = String::new();
        message.append("missing frame state ");
        append_unsigned(&mut message, f as u64);
        return Err(WriterError::InvalidPixels { layer_id: source.id, message });
    }
    let pixels = match &source.pixels {
        Some(pixels) => pixels,
        None => {
            return Err(WriterError::InvalidPixels { layer_id: source.id, message: "pixel layer has no owned data".to_owned() });
        },
    };
    let (x, y) = cel_position(pixels, source, f)?;
    let width = u16_value("pixel width", pixels.width)?;
    let height = u16_value("pixel height", pixels.height)?;
    match check_rgba_pixels(&pixels.data, width, height) {
        Ok(()) => {},
        Err(error) => {
            return Err(WriterError::InvalidPixels { layer_id: source.id, message: aseprite_error_text(&error) });
        },
    }
    let opacity: u8 = if f < source.frame_opacity.len() && source.frame_opacity[f].is_some() {
        match source.frame_opacity[f] {
            Some(value) => value,
            None => 255,
        }
    } else {
        match source.opacity {
            Some(value) => value,
            None => 255,
        }
    };
    let data = pixels.data.clone();
    let stored = pixels.data.clone();
    let ghost before_cels = ase_cels(*file);
    let ghost before_tracker = *tracker;
    let key = (layer.index(), f);
    let linked = tracker.emit_cel(f, width, height, data.as_slice(), stored);
    let set = match linked {
        Some(source_frame) => set_linked_cel(file, layer, f, source_frame, x, y, opacity, z_index),
        None => {
            if opacity == 255 && z_index == 0 {
                set_raw_cel(file, layer, f, data, width, height, x, y)
            } else {
                set_cel_with(file, layer, f, data, width, height, x, y, opacity, z_index)
            }
        },
    };
    match set {
        Ok(()) => {},
        Err(error) => {
            return Err(WriterError::Aseprite(aseprite_error_text(&error)));
        },
    }
    proof {
        let cels = ase_cels(*file);
        assert(cels.contains_key(key));
        assert forall|s: int| 0 <= s < tracker.sources@.len() implies {
            let src = #[trigger] tracker.sources@[s];
            &&& src.source_frame < f + 1
            &&& cels.contains_key((layer.index_in_file(), src.source_frame))
            &&& cels[(layer.index_in_file(), src.source_frame)].0 is None
            &&& cels[(layer.index_in_file(), src.source_frame)].5 == src.width
            &&& cels[(layer.index_in_file(), src.source_frame)].6 == src.height
            &&& cels[(layer.index_in_file(), src.source_frame)].7 == src.rgba@
        } by {
            if s < before_tracker.sources@.len() {
                assert(tracker.sources@[s] == before_tracker.sources@[s]);
                assert(before_tracker.sources@[s].source_frame < f);
            }
        }
        if cels[key].0 is Some {
            let src_frame = cels[key].0->0;
            let i = choose|i: int| {
                &&& 0 <= i < before_tracker.sources@.len()
                &&& #[trigger] same_cel(before_tracker.sources@[i], width, height, data@)
                &&& before_tracker.sources@[i].source_frame == src_frame
                &&& forall|k: int| 0 <= k < i ==> !same_cel(#[trigger] before_tracker.sources@[k], width, height, data@)
            };
            assert(before_tracker.sources@[i].source_frame < f);
        }
        assert(cels == before_cels.insert(key, cels[key]));
    }
    Ok(linked.is_some())
}


/// Writes the planned cel of frame `f` on a bound layer: the cel of its source layer, with
/// the planned Z-Index.
pub fn emit_planned_cel(
    file: &mut AsepriteFile,
    layer: &AseLayer,
    f: usize,
    cel: PlannedCel,
    document: &NormalizedDocument,
    tracker: &mut CelReuseTracker,
) -> (emitted: Result<bool, WriterError>)
    requires
        f < ase_frames(*old(file)).len(),
        !ase_cels(*old(file)).contains_key((layer.index_in_file(), f)),
        tracker_in_file(*old(tracker), ase_cels(*old(file)), layer.index_in_file(), f as int),
        old(tracker).report.pixel_cel_count < usize::MAX,
        old(tracker).report.linked_cel_count < usize::MAX,
    ensures
        ase_frames(*final(file)) == ase_frames(*old(file)),
        ase_layers(*final(file)) == ase_layers(*old(file)),
        ase_tags(*final(file)) == ase_tags(*old(file)),
        ase_canvas(*final(file)) == ase_canvas(*old(file)),
        emitted is Ok <==> cel_writable(*document, cel, f as int),
        emitted is Err ==> ase_cels(*final(file)) == ase_cels(*old(file)),
        emitted matches Ok(linked) ==> {
            &&& linked == ase_cels(*final(file))[(layer.index_in_file(), f)].0 is Some
            &&& cel_stored(ase_cels(*final(file)), layer.index_in_file(), f, *document, cel)
            &&& ase_cels(*final(file)) == ase_cels(*old(file)).insert((layer.index_in_file(), f), ase_cels(*final(file))[(layer.index_in_file(), f)])
            &&& tracker_in_file(*final(tracker), ase_cels(*final(file)), layer.index_in_file(), f as int + 1)
            &&& final(tracker).mode == old(tracker).mode
            &&& (ase_cels(*final(file))[(layer.index_in_file(), f)].0 is Some ==> old(tracker).mode == LinkedCelMode::Identical)
            &&& final(tracker).report.pixel_cel_count + final(tracker).report.linked_cel_count
                == old(tracker).report.pixel_cel_count + old(tracker).report.linked_cel_count + 1
        },
{
    if cel.source_frame_index as usize != f {
        return Err(WriterError::InvalidFrameIndex { expected: f, actual: cel.source_frame_index });
    }
    let source = match find_layer_in(&document.root_layers, cel.source_layer_id) {
        Some(source) => source,
        None => {
            return Err(WriterError::InvalidPixels { layer_id: cel.source_layer_id, message: "planned source layer was not found".to_owned() });
        },
    };
    emit_layer_cel(file, layer, f, source, cel.z_index, tracker)
}

/// A cel stays rightly stored when a cel is added under a new key.
proof fn lemma_stored_kept(cels: Map<(usize, usize), AseCelView>, key: (usize, usize), view: AseCelView, index: usize, f: usize, document: NormalizedDocument, cel: PlannedCel)
    requires
        cel_stored(cels, index, f, document, cel),
        !cels.contains_key(key),
    ensures
        cel_stored(cels.insert(key, view), index, f, document, cel),
{
    let next = cels.insert(key, view);
    assert(key != (index, f));
    assert(next[(index, f)] == cels[(index, f)]);
    if let Some(source) = cels[(index, f)].0 {
        assert(key != (index, source));
        assert(next[(index, source)] == cels[(index, source)]);
    }
}

/// A tracker stays in the file when a cel is added under a new key.
proof fn lemma_tracker_kept(tracker: CelReuseTracker, cels: Map<(usize, usize), AseCelView>, key: (usize, usize), view: AseCelView, index: usize, f: int, g: int)
    requires
        tracker_in_file(tracker, cels, index, f),
        !cels.contains_key(key),
        f <= g,
    ensures
        tracker_in_file(tracker, cels.insert(key, view), index, g),
{
    let next = cels.insert(key, view);
    assert forall|s: int| 0 <= s < tracker.sources@.len() implies {
        let source = #[trigger] tracker.sources@[s];
        &&& source.source_frame < g
        &&& next.contains_key((index, source.source_frame))
        &&& next[(index, source.source_frame)].0 is None
        &&& next[(index, source.source_frame)].5 == source.width
        &&& next[(index, source.source_frame)].6 == source.height
        &&& next[(index, source.source_frame)].7 == source.rgba@
    } by {
        let source = tracker.sources@[s];
        assert(cels.contains_key((index, source.source_frame)));
        assert(key != (index, source.source_frame));
    }
}

/// Whether the cell of frame `f` and binding `b` comes before the cell of frame `g` and
/// binding `c` in frame-major order.
pub open spec fn cell_before(f: int, b: int, g: int, c: int) -> bool {
    f < g || (f == g && b < c)
}

/// The planned cel of binding `b` in frame `f`.
pub open spec fn planned_cel(plan: LayerWritePlan, bindings: Seq<PlannedBinding>, b: int, f: int) -> Option<PlannedCel> {
    plan.tracks@[bindings[b].track as int].cels@[f]
}

/// Whether every planned cel of the bound tracks before frame `n` can be written.
pub open spec fn planned_cels_writable(document: NormalizedDocument, plan: LayerWritePlan, bindings: Seq<PlannedBinding>, n: int) -> bool {
    forall|f: int, b: int| 0 <= f < n && 0 <= b < bindings.len() && (#[trigger] planned_cel(plan, bindings, b, f)) is Some
        ==> cel_writable(document, planned_cel(plan, bindings, b, f)->0, f)
}

/// Whether the cels of the cells before `(g, c)` are what the plan asks: each planned cel
/// rightly stored, no cel where the plan has none, and no cel yet for a later cell.
pub open spec fn cels_so_far(
    cels: Map<(usize, usize), AseCelView>,
    document: NormalizedDocument,
    plan: LayerWritePlan,
    bindings: Seq<PlannedBinding>,
    n: int,
    g: int,
    c: int,
) -> bool {
    forall|f: int, b: int| 0 <= f < n && 0 <= b < bindings.len() ==> {
        let key = (bindings[b].layer.index_in_file(), f as usize);
        if cell_before(f, b, g, c) {
            match #[trigger] planned_cel(plan, bindings, b, f) {
                Some(cel) => cel_stored(cels, bindings[b].layer.index_in_file(), f as usize, document, cel),
                None => !cels.contains_key(key),
            }
        } else {
            !cels.contains_key(key)
        }
    }
}

/// The number of planned cels of frame `f` on the first `b` of the listed tracks.
pub open spec fn row_planned(plan: LayerWritePlan, tracks: Seq<usize>, f: int, b: int) -> nat
    decreases b,
{
    if b <= 0 {
        0
    } else {
        row_planned(plan, tracks, f, b - 1) + if plan.tracks@[tracks[b - 1] as int].cels@[f] is Some { 1nat } else { 0nat }
    }
}

/// The number of planned cels of the listed tracks in the first `f` frames.
pub open spec fn rows_planned(plan: LayerWritePlan, tracks: Seq<usize>, f: int) -> nat
    decreases f,
{
    if f <= 0 {
        0
    } else {
        rows_planned(plan, tracks, f - 1) + row_planned(plan, tracks, f - 1, tracks.len() as int)
    }
}

/// Writes every planned cel of the bound tracks, frame by frame and, within a frame, in
/// binding order, with one cel-reuse tracker per binding.
pub fn emit_planned_cels(
    file: &mut AsepriteFile,
    bindings: &Vec<PlannedBinding>,
    document: &NormalizedDocument,
    plan: &LayerWritePlan,
    linked_cels: LinkedCelMode,
) -> (emitted: Result<CelReuseReport, WriterError>)
    requires
        bindings_wf(bindings@, *plan, ase_layers(*old(file)), 0),
        ase_cels(*old(file)) == no_cels(),
        ase_frames(*old(file)).len() == document.frames@.len(),
        forall|b: int| 0 <= b < bindings@.len() ==> document.frames@.len() <= (#[trigger] plan.tracks@[bindings@[b].track as int]).cels@.len(),
        document.frames@.len() * bindings@.len() <= usize::MAX,
    ensures
        ase_frames(*final(file)) == ase_frames(*old(file)),
        ase_layers(*final(file)) == ase_layers(*old(file)),
        ase_tags(*final(file)) == ase_tags(*old(file)),
        ase_canvas(*final(file)) == ase_canvas(*old(file)),
        emitted is Ok <==> planned_cels_writable(*document, *plan, bindings@, document.frames@.len() as int),
        emitted is Ok ==> cels_so_far(ase_cels(*final(file)), *document, *plan, bindings@, document.frames@.len() as int,
            document.frames@.len() as int, 0),
        emitted is Ok ==> linked_cels == LinkedCelMode::Off ==> forall|key: (usize, usize)| #[trigger] ase_cels(*final(file)).contains_key(key)
            ==> ase_cels(*final(file))[key].0 is None,
        emitted matches Ok(report) ==> report.pixel_cel_count + report.linked_cel_count == rows_planned(*plan, bound_tracks(bindings@), document.frames@.len() as int),
        emitted matches Ok(report) ==> linked_cels == LinkedCelMode::Off ==> report.linked_cel_count == 0,
{
    let n = document.frames.len();
    let count = bindings.len();
    let mut trackers: Vec<CelReuseTracker> = Vec::new();
    let mut t: usize = 0;
    while t < count
        invariant
            t <= count,
            count == bindings@.len(),
            trackers@.len() == t,
            forall|b: int| 0 <= b < t ==> (#[trigger] trackers@[b]).mode == linked_cels && trackers@[b].sources@.len() == 0
                && sources_hashed(trackers@[b].sources@)
                && trackers@[b].report.pixel_cel_count == 0 && trackers@[b].report.linked_cel_count == 0,
        decreases count - t,
    {
        trackers.push(CelReuseTracker::new(linked_cels));
        t = t + 1;
    }
    let mut pixel_total: usize = 0;
    let mut linked_total: usize = 0;
    let ghost start_file = *file;
    let mut f: usize = 0;
    while f < n
        invariant
            n == document.frames@.len(),
            count == bindings@.len(),
            f <= n,
            n * count <= usize::MAX,
            trackers@.len() == count,
            bindings_wf(bindings@, *plan, ase_layers(*file), 0),
            forall|b: int| 0 <= b < bindings@.len() ==> n <= (#[trigger] plan.tracks@[bindings@[b].track as int]).cels@.len(),
            ase_frames(*file).len() == n,
            ase_frames(*file) == ase_frames(start_file),
            ase_layers(*file) == ase_layers(start_file),
            ase_tags(*file) == ase_tags(start_file),
            ase_canvas(*file) == ase_canvas(start_file),
            start_file == *old(file),
            forall|b: int| 0 <= b < count ==> tracker_in_file(#[trigger] trackers@[b], ase_cels(*file), bindings@[b].layer.index_in_file(), f as int)
                && trackers@[b].mode == linked_cels
                && trackers@[b].report.pixel_cel_count + trackers@[b].report.linked_cel_count <= f,
            pixel_total + linked_total <= f * count,
            pixel_total + linked_total == rows_planned(*plan, bound_tracks(bindings@), f as int),
            linked_cels == LinkedCelMode::Off ==> linked_total == 0,
            cels_so_far(ase_cels(*file), *document, *plan, bindings@, n as int, f as int, 0),
            planned_cels_writable(*document, *plan, bindings@, f as int),
            linked_cels == LinkedCelMode::Off ==> forall|key: (usize, usize)| #[trigger] ase_cels(*file).contains_key(key) ==> ase_cels(*file)[key].0 is None,
        decreases n - f,
    {
        let mut b: usize = 0;
        proof {
            assert(f * count + count <= n * count) by (nonlinear_arith)
                requires f < n;
        }
        while b < count
            invariant
                n == document.frames@.len(),
                count == bindings@.len(),
                f < n,
                b <= count,
                f * count + count <= usize::MAX,
                trackers@.len() == count,
                bindings_wf(bindings@, *plan, ase_layers(*file), 0),
                forall|c: int| 0 <= c < bindings@.len() ==> n <= (#[trigger] plan.tracks@[bindings@[c].track as int]).cels@.len(),
                ase_frames(*file).len() == n,
                ase_frames(*file) == ase_frames(start_file),
                ase_layers(*file) == ase_layers(start_file),
                ase_tags(*file) == ase_tags(start_file),
                ase_canvas(*file) == ase_canvas(start_file),
                start_file == *old(file),
                forall|c: int| 0 <= c < count ==> tracker_in_file(#[trigger] trackers@[c], ase_cels(*file), bindings@[c].layer.index_in_file(),
                    if c < b { f as int + 1 } else { f as int })
                    && trackers@[c].mode == linked_cels
                    && trackers@[c].report.pixel_cel_count + trackers@[c].report.linked_cel_count <= (if c < b { f as int + 1 } else { f as int }),
                pixel_total + linked_total <= f * count + b,
                pixel_total + linked_total == rows_planned(*plan, bound_tracks(bindings@), f as int) + row_planned(*plan, bound_tracks(bindings@), f as int, b as int),
                linked_cels == LinkedCelMode::Off ==> linked_total == 0,
                cels_so_far(ase_cels(*file), *document, *plan, bindings@, n as int, f as int, b as int),
                planned_cels_writable(*document, *plan, bindings@, f as int),
                forall|c: int| 0 <= c < b && (#[trigger] planned_cel(*plan, bindings@, c, f as int)) is Some
                    ==> cel_writable(*document, planned_cel(*plan, bindings@, c, f as int)->0, f as int),
                linked_cels == LinkedCelMode::Off ==> forall|key: (usize, usize)| #[trigger] ase_cels(*file).contains_key(key) ==> ase_cels(*file)[key].0 is None,
            decreases count - b,
        {
            let binding = &bindings[b];
            let track = &plan.tracks[binding.track];
            match track.cels[f] {
                None => {},
                Some(cel) => {
                    let ghost before_cels = ase_cels(*file);
                    let ghost before_trackers = trackers@;
                    let ghost index = binding.layer.index_in_file();
                    let key = (binding.layer.index(), f);
                    proof {
                        assert(planned_cel(*plan, bindings@, b as int, f as int) == Some(cel));
                        assert(!before_cels.contains_key(key));
                        assert(trackers@[b as int].report.pixel_cel_count < usize::MAX);
                    }
                    let emitted = emit_planned_cel(file, &binding.layer, f, cel, document, &mut trackers[b]);
                    match emitted {
                        Ok(linked) => {
                            if linked {
                                linked_total = linked_total + 1;
                            } else {
                                pixel_total = pixel_total + 1;
                            }
                        },
                        Err(e) => {
                            proof {
                                assert(!planned_cels_writable(*document, *plan, bindings@, n as int)) by {
                                    assert(planned_cel(*plan, bindings@, b as int, f as int) is Some);
                                }
                            }
                            return Err(e);
                        },
                    }
                    let ghost view = ase_cels(*file)[key];
                    proof {
                        assert(ase_cels(*file) == before_cels.insert(key, view));
                        assert forall|c: int| 0 <= c < count && c != b implies tracker_in_file(#[trigger] trackers@[c], ase_cels(*file), bindings@[c].layer.index_in_file(),
                            if c < b { f as int + 1 } else { f as int }) by {
                            assert(trackers@[c] == before_trackers[c]);
                            lemma_tracker_kept(before_trackers[c], before_cels, key, view, bindings@[c].layer.index_in_file(),
                                if c < b { f as int + 1 } else { f as int }, if c < b { f as int + 1 } else { f as int });
                        }
                        assert forall|g: int, c: int| 0 <= g < n && 0 <= c < bindings@.len() implies {
                            let k = (bindings@[c].layer.index_in_file(), g as usize);
                            if cell_before(g, c, f as int, b as int + 1) {
                                match #[trigger] planned_cel(*plan, bindings@, c, g) {
                                    Some(pc) => cel_stored(ase_cels(*file), bindings@[c].layer.index_in_file(), g as usize, *document, pc),
                                    None => !ase_cels(*file).contains_key(k),
                                }
                            } else {
                                !ase_cels(*file).contains_key(k)
                            }
                        } by {
                            let k = (bindings@[c].layer.index_in_file(), g as usize);
                            if c != b {
                                if c < b {
                                    assert(bindings@[c].layer.index_in_file() < bindings@[b as int].layer.index_in_file());
                                } else {
                                    assert(bindings@[b as int].layer.index_in_file() < bindings@[c].layer.index_in_file());
                                }
                            }
                            if cell_before(g, c, f as int, b as int) {
                                if let Some(pc) = planned_cel(*plan, bindings@, c, g) {
                                    lemma_stored_kept(before_cels, key, view, bindings@[c].layer.index_in_file(), g as usize, *document, pc);
                                }
                            }
                        }
                    }
                },
            }
            proof {
                assert(pixel_total + linked_total <= f * count + b + 1);
                assert(row_planned(*plan, bound_tracks(bindings@), f as int, b as int + 1) == row_planned(*plan, bound_tracks(bindings@), f as int, b as int)
                    + if plan.tracks@[bound_tracks(bindings@)[b as int] as int].cels@[f as int] is Some { 1nat } else { 0nat });
            }
            b = b + 1;
        }
        proof {
            assert((f + 1) * count == f * count + count) by (nonlinear_arith);
            assert(rows_planned(*plan, bound_tracks(bindings@), f as int + 1) == rows_planned(*plan, bound_tracks(bindings@), f as int) + row_planned(*plan, bound_tracks(bindings@), f as int, count as int));
            assert forall|g: int, c: int| 0 <= g < f + 1 && 0 <= c < bindings@.len() && (#[trigger] planned_cel(*plan, bindings@, c, g)) is Some
                implies cel_writable(*document, planned_cel(*plan, bindings@, c, g)->0, g) by {}
            assert forall|g: int, c: int| 0 <= g < n && 0 <= c < bindings@.len() implies cell_before(g, c, f as int, count as int) == cell_before(g, c, f as int + 1, 0) by {}
        }
        f = f + 1;
    }
    Ok(CelReuseReport { pixel_cel_count: pixel_total, linked_cel_count: linked_total })
}


/// The repeat count a loop mode is written with: zero for an endless loop.
pub open spec fn repeat_of(mode: NormalizedLoopMode) -> int {
    match mode {
        NormalizedLoopMode::Infinite => 0,
        NormalizedLoopMode::Finite(count) => count as int,
    }
}

/// Whether every frame of a document is numbered by its position and has a duration that
/// fits sixteen bits.
pub open spec fn frames_in_order(document: NormalizedDocument) -> bool {
    forall|i: int| 0 <= i < document.frames@.len() ==> #[trigger] document.frames@[i].index == i
        && frame_duration(document.frames@[i]) <= u16::MAX
}

/// Whether a document's timeline can be written: a canvas of sixteen-bit sides, at least
/// one frame, frames in order, and a loop repeat count of sixteen bits.
pub open spec fn timeline_writable(document: NormalizedDocument) -> bool {
    &&& document.canvas.0 <= u16::MAX
    &&& document.canvas.1 <= u16::MAX
    &&& document.frames@.len() > 0
    &&& frames_in_order(document)
    &&& match document.loop_mode {
        Some(mode) => repeat_of(mode) <= u16::MAX,
        None => true,
    }
}

/// The error reported for a timeline that cannot be written: the first of the canvas width,
/// the canvas height, the missing frames, the first frame out of order, and the loop repeat
/// count that breaks the rules.
pub open spec fn timeline_error(document: NormalizedDocument, e: WriterError) -> bool {
    if document.canvas.0 > u16::MAX {
        format_limit(e, "canvas width"@, document.canvas.0 as int, u16::MAX as int)
    } else if document.canvas.1 > u16::MAX {
        format_limit(e, "canvas height"@, document.canvas.1 as int, u16::MAX as int)
    } else if document.frames@.len() == 0 {
        e is Aseprite
    } else if !frames_in_order(document) {
        exists|i: int| #[trigger] timeline_fault(document.frames@, i, e)
    } else {
        format_limit(e, "loop repeat count"@, repeat_of(document.loop_mode->0), u16::MAX as int)
    }
}

/// Whether a file holds a document's timeline and nothing else: its canvas, one frame per
/// document frame with the frame's duration, and the forward loop tag over every frame when
/// the document loops.
pub open spec fn timeline_written(file: AsepriteFile, document: NormalizedDocument) -> bool {
    &&& ase_canvas(file) == (document.canvas.0 as u16, document.canvas.1 as u16)
    &&& ase_frames(file).len() == document.frames@.len()
    &&& forall|i: int| 0 <= i < document.frames@.len() ==> #[trigger] ase_frames(file)[i] == frame_duration(document.frames@[i])
    &&& match document.loop_mode {
        None => ase_tags(file).len() == 0,
        Some(mode) => ase_tags(file) == seq![("PSD Animation"@, 0usize, (document.frames@.len() - 1) as usize, repeat_of(mode) as u16)],
    }
}

/// Starts the Aseprite file of a document: the canvas, the frames with their durations, and
/// the loop tag.
pub fn initialize_file(document: &NormalizedDocument) -> (initialized: Result<AsepriteFile, WriterError>)
    ensures
        match initialized {
            Ok(file) => {
                &&& timeline_writable(*document)
                &&& timeline_written(file, *document)
                &&& ase_layers(file).len() == 0
                &&& ase_cels(file) == no_cels()
            },
            Err(e) => !timeline_writable(*document) && timeline_error(*document, e),
        },
{
    let width = match u16_value("canvas width", document.canvas.0) {
        Ok(v) => v,
        Err(e) => {
            return Err(e);
        },
    };
    let height = match u16_value("canvas height", document.canvas.1) {
        Ok(v) => v,
        Err(e) => {
            return Err(e);
        },
    };
    let mut file = new_rgba_file(width, height);
    let durations = match frame_durations(&document.frames) {
        Ok(durations) => durations,
        Err(e) => {
            proof {
                if document.frames@.len() > 0 {
                    let i = choose|i: int| #[trigger] timeline_fault(document.frames@, i, e);
                    assert(!(document.frames@[i].index == i && frame_duration(document.frames@[i]) <= u16::MAX));
                }
            }
            return Err(e);
        },
    };
    let n = durations.len();
    let mut i: usize = 0;
    while i < n
        invariant
            n == durations@.len(),
            n == document.frames@.len(),
            i <= n,
            forall|k: int| 0 <= k < n ==> #[trigger] durations@[k] == frame_duration(document.frames@[k]),
            ase_canvas(file) == (width, height),
            ase_frames(file).len() == i,
            forall|k: int| 0 <= k < i ==> #[trigger] ase_frames(file)[k] == durations@[k],
            ase_layers(file).len() == 0,
            ase_cels(file) == no_cels(),
            ase_tags(file).len() == 0,
        decreases n - i,
    {
        add_frame(&mut file, durations[i]);
        i = i + 1;
    }
    proof {
        assert forall|k: int| 0 <= k < document.frames@.len() implies #[trigger] document.frames@[k].index == k
            && frame_duration(document.frames@[k]) <= u16::MAX by {
            assert(durations@[k] == frame_duration(document.frames@[k]));
        }
        assert(frames_in_order(*document));
    }
    match &document.loop_mode {
        None => {},
        Some(mode) => {
            let repeat = match loop_repeat(mode) {
                Ok(v) => v,
                Err(e) => {
                    return Err(e);
                },
            };
            match add_forward_tag(&mut file, "PSD Animation", n - 1, repeat) {
                Ok(_) => {},
                Err(error) => {
                    return Err(WriterError::Aseprite(aseprite_error_text(&error)));
                },
            }
            assert(ase_tags(file) =~= seq![("PSD Animation"@, 0usize, (n - 1) as usize, repeat)]);
        },
    }
    proof {
        assert forall|k: int| 0 <= k < document.frames@.len() implies #[trigger] ase_frames(file)[k] == frame_duration(document.frames@[k]) by {
            assert(durations@[k] == frame_duration(document.frames@[k]));
        }
    }
    Ok(file)
}

/// A strictly increasing run of layer indices from zero is no longer than the layers.
proof fn lemma_index_at_least(bindings: Seq<PlannedBinding>, plan: LayerWritePlan, layers: Seq<AseLayerView>, b: int)
    requires
        bindings_wf(bindings, plan, layers, 0),
        0 <= b < bindings.len(),
    ensures
        bindings[b].layer.index_in_file() >= b,
    decreases b,
{
    if b > 0 {
        lemma_index_at_least(bindings, plan, layers, b - 1);
        assert(bindings[b - 1].layer.index_in_file() < bindings[b].layer.index_in_file());
    }
}

/// Whether every planned cel of the listed tracks in the first `n` frames can be written.
pub open spec fn track_cels_writable(document: NormalizedDocument, plan: LayerWritePlan, tracks: Seq<usize>, n: int) -> bool {
    forall|f: int, k: int| 0 <= f < n && 0 <= k < tracks.len() && (#[trigger] plan.tracks@[tracks[k] as int].cels@[f]) is Some
        ==> cel_writable(document, plan.tracks@[tracks[k] as int].cels@[f]->0, f)
}

/// Whether a plan can be written for a document: the timeline, the layer tree, and every
/// planned cel of the tracks the tree names.
pub open spec fn plan_writable(document: NormalizedDocument, plan: LayerWritePlan) -> bool {
    &&& timeline_writable(document)
    &&& nodes_writable(plan.root_nodes@, document, plan)
    &&& track_cels_writable(document, plan, forest_tracks(planned_shapes(plan.root_nodes@)), document.frames@.len() as int)
}

/// The Aseprite file built from a logical-layer plan, before it is written out: the file,
/// the warnings collected, and the counts of ordinary and linked cels.
pub struct PlannedFile {
    /// The file.
    pub file: AsepriteFile,
    /// The warnings collected while mapping layers.
    pub warnings: WarningCollector,
    /// The cels written.
    pub cel_reuse: CelReuseReport,
}

/// Builds the Aseprite file of a document from a logical-layer plan: the timeline, one layer
/// or group per plan node in tree order, and the planned cels of every bound track, linking
/// identical cels of a layer on request.
pub fn build_planned_file(
    document: &NormalizedDocument,
    plan: &LayerWritePlan,
    linked_cels: LinkedCelMode,
) -> (built: Result<PlannedFile, WriterError>)
    requires
        forall|t: int| 0 <= t < plan.tracks@.len() ==> document.frames@.len() <= (#[trigger] plan.tracks@[t]).cels@.len(),
        document.frames@.len() * forest_size(planned_shapes(plan.root_nodes@)) <= usize::MAX,
    ensures
        built is Ok <==> plan_writable(*document, *plan),
        !timeline_writable(*document) ==> (built matches Err(e) && timeline_error(*document, e)),
        built matches Ok(planned) ==> {
            let file = planned.file;
            let tracks = forest_tracks(planned_shapes(plan.root_nodes@));
            &&& timeline_written(file, *document)
            &&& ase_layers(file).len() == forest_size(planned_shapes(plan.root_nodes@))
            &&& ase_layers(file) == planned_nodes_views(plan.root_nodes@, None, 0, *document, *plan)
            &&& exists|bindings: Seq<PlannedBinding>| {
                &&& bound_tracks(bindings) == tracks
                &&& bindings_wf(bindings, *plan, ase_layers(file), 0)
                &&& cels_so_far(ase_cels(file), *document, *plan, bindings, document.frames@.len() as int, document.frames@.len() as int, 0)
            }
            &&& planned.cel_reuse.pixel_cel_count + planned.cel_reuse.linked_cel_count == rows_planned(*plan, tracks, document.frames@.len() as int)
            &&& (linked_cels == LinkedCelMode::Off ==> planned.cel_reuse.linked_cel_count == 0)
            &&& (linked_cels == LinkedCelMode::Off ==> forall|key: (usize, usize)| #[trigger] ase_cels(file).contains_key(key) ==> ase_cels(file)[key].0 is None)
        },
{
    let mut file = initialize_file(document)?;
    let mut warnings = WarningCollector::new();
    let mut bindings: Vec<PlannedBinding> = Vec::new();
    let ghost start_file = file;
    proof {
        assert(bindings@.skip(0) =~= bindings@);
    }
    let created = create_planned_nodes(&mut file, &plan.root_nodes, None, document, plan, &mut bindings, &mut warnings);
    match created {
        Ok(()) => {},
        Err(e) => {
            return Err(e);
        },
    }
    let ghost tracks = forest_tracks(planned_shapes(plan.root_nodes@));
    let n = document.frames.len();
    proof {
        assert(bindings@.skip(0) =~= bindings@);
        assert(bound_tracks(bindings@) == tracks);
        assert(ase_layers(file).take(0) =~= ase_layers(start_file));
        assert(ase_layers(file) =~= ase_layers(start_file) + planned_nodes_views(plan.root_nodes@, None, 0, *document, *plan));
        if bindings@.len() > 0 {
            lemma_index_at_least(bindings@, *plan, ase_layers(file), bindings@.len() - 1);
        }
        assert(bindings@.len() <= forest_size(planned_shapes(plan.root_nodes@)));
        assert(n * bindings@.len() <= n * forest_size(planned_shapes(plan.root_nodes@))) by (nonlinear_arith)
            requires bindings@.len() <= forest_size(planned_shapes(plan.root_nodes@));
        assert forall|b: int| 0 <= b < bindings@.len() implies n <= (#[trigger] plan.tracks@[bindings@[b].track as int]).cels@.len() by {}
    }
    let emitted = emit_planned_cels(&mut file, &bindings, document, plan, linked_cels);
    proof {
        assert forall|f: int, k: int| 0 <= f < n && 0 <= k < bindings@.len()
            implies (#[trigger] planned_cel(*plan, bindings@, k, f)) == plan.tracks@[tracks[k] as int].cels@[f] by {
            assert(tracks[k] == bindings@[k].track);
        }
        assert(planned_cels_writable(*document, *plan, bindings@, n as int) == track_cels_writable(*document, *plan, tracks, n as int)) by {
            if planned_cels_writable(*document, *plan, bindings@, n as int) {
                assert forall|f: int, k: int| 0 <= f < n && 0 <= k < tracks.len() && (#[trigger] plan.tracks@[tracks[k] as int].cels@[f]) is Some
                    implies cel_writable(*document, plan.tracks@[tracks[k] as int].cels@[f]->0, f) by {
                    assert(planned_cel(*plan, bindings@, k, f) == plan.tracks@[tracks[k] as int].cels@[f]);
                }
            }
            if track_cels_writable(*document, *plan, tracks, n as int) {
                assert forall|f: int, b: int| 0 <= f < n && 0 <= b < bindings@.len() && (#[trigger] planned_cel(*plan, bindings@, b, f)) is Some
                    implies cel_writable(*document, planned_cel(*plan, bindings@, b, f)->0, f) by {
                    assert(tracks[b] == bindings@[b].track);
                }
            }
        }
    }
    let cel_reuse = match emitted {
        Ok(report) => report,
        Err(e) => {
            return Err(e);
        },
    };
    Ok(PlannedFile { file, warnings, cel_reuse })
}

/// Encodes a document as an Aseprite file from a logical-layer plan, linking identical cels
/// of a layer when `linked_cels` asks for it. Succeeds only where the plan can be written;
/// the bytes are those of the file `build_planned_file` gives.
pub fn encode_with_plan_and_linked_cels(
    document: &NormalizedDocument,
    plan: &LayerWritePlan,
    linked_cels: LinkedCelMode,
) -> (encoded: Result<EncodedAseprite, WriterError>)
    requires
        forall|t: int| 0 <= t < plan.tracks@.len() ==> document.frames@.len() <= (#[trigger] plan.tracks@[t]).cels@.len(),
        document.frames@.len() * forest_size(planned_shapes(plan.root_nodes@)) <= usize::MAX,
    ensures
        encoded is Ok ==> plan_writable(*document, *plan),
        !plan_writable(*document, *plan) ==> encoded is Err,
        !timeline_writable(*document) ==> (encoded matches Err(e) && timeline_error(*document, e)),
        encoded matches Ok(result) ==> {
            let tracks = forest_tracks(planned_shapes(plan.root_nodes@));
            &&& result.cel_reuse.pixel_cel_count + result.cel_reuse.linked_cel_count == rows_planned(*plan, tracks, document.frames@.len() as int)
            &&& (linked_cels == LinkedCelMode::Off ==> result.cel_reuse.linked_cel_count == 0)
            &&& result.warnings@.len() == result.warning_details@.len()
            &&& forall|i: int| 0 <= i < result.warnings@.len() ==> #[trigger] result.warnings@[i] == result.warning_details@[i].message
        },
{
    let planned = build_planned_file(document, plan, linked_cels)?;
    let bytes = match write_file_bytes(&planned.file) {
        Ok(bytes) => bytes,
        Err(error) => {
            return Err(WriterError::Aseprite(aseprite_error_text(&error)));
        },
    };
    let (warnings, warning_details) = planned.warnings.into_parts();
    Ok(EncodedAseprite { bytes, warnings, warning_details, cel_reuse: planned.cel_reuse })
}

/// Encodes a document as an Aseprite file from a logical-layer plan, every cel with its own
/// pixels.
pub fn encode_with_plan(document: &NormalizedDocument, plan: &LayerWritePlan) -> (encoded: Result<EncodedAseprite, WriterError>)
    requires
        forall|t: int| 0 <= t < plan.tracks@.len() ==> document.frames@.len() <= (#[trigger] plan.tracks@[t]).cels@.len(),
        document.frames@.len() * forest_size(planned_shapes(plan.root_nodes@)) <= usize::MAX,
    ensures
        encoded is Ok ==> plan_writable(*document, *plan),
        !plan_writable(*document, *plan) ==> encoded is Err,
        !timeline_writable(*document) ==> (encoded matches Err(e) && timeline_error(*document, e)),
        encoded matches Ok(result) ==> {
            &&& result.cel_reuse.pixel_cel_count == rows_planned(*plan, forest_tracks(planned_shapes(plan.root_nodes@)), document.frames@.len() as int)
            &&& result.cel_reuse.linked_cel_count == 0
        },
{
    encode_with_plan_and_linked_cels(document, plan, LinkedCelMode::Off)
}


/// The number of file layers a source layer's tree writes: one per group and pixel layer;
/// the children of a pixel layer are not written.
pub open spec fn tree_size(layer: NormalizedLayer) -> nat
    decreases layer,
{
    match layer.kind {
        NormalizedLayerKind::Group => 1 + trees_size(layer.children@),
        NormalizedLayerKind::Pixel => 1,
    }
}

/// The number of file layers a list of source trees writes.
pub open spec fn trees_size(layers: Seq<NormalizedLayer>) -> nat
    decreases layers,
{
    if layers.len() == 0 {
        0
    } else {
        tree_size(layers[0]) + trees_size(layers.subrange(1, layers.len() as int))
    }
}

/// The pixel layers a source layer's tree writes, in tree order.
pub open spec fn tree_pixels(layer: NormalizedLayer) -> Seq<NormalizedLayer>
    decreases layer,
{
    match layer.kind {
        NormalizedLayerKind::Group => trees_pixels(layer.children@),
        NormalizedLayerKind::Pixel => seq![layer],
    }
}

/// The pixel layers a list of source trees writes, in tree order.
pub open spec fn trees_pixels(layers: Seq<NormalizedLayer>) -> Seq<NormalizedLayer>
    decreases layers,
{
    if layers.len() == 0 {
        Seq::empty()
    } else {
        tree_pixels(layers[0]) + trees_pixels(layers.subrange(1, layers.len() as int))
    }
}

/// The blend mode a source layer is written with: the Aseprite mode its name maps to, normal
/// when it names none or one Aseprite lacks.
pub open spec fn written_blend(layer: NormalizedLayer) -> AseBlend {
    match layer.blend_mode {
        Some(name) => match blend_of(name@) {
            Some(mapped) => mapped,
            None => AseBlend::Normal,
        },
        None => AseBlend::Normal,
    }
}

/// The file layer written for a source layer below `parent`: its name, whether it is a
/// group, the parent, its opacity (full when undeclared), its blend mode, and visibility
/// when it is enabled in some frame.
pub open spec fn written_view(layer: NormalizedLayer, parent: Option<usize>) -> AseLayerView {
    (
        layer.name@,
        layer.kind == NormalizedLayerKind::Group,
        parent,
        match layer.opacity { Some(value) => value, None => 255u8 },
        written_blend(layer),
        enabled_somewhere(layer),
    )
}

/// The file layers a source layer's tree writes below `parent`, the first at index `at`: the
/// layer, then for a group its children's trees with the group as parent.
pub open spec fn tree_views(layer: NormalizedLayer, parent: Option<usize>, at: int) -> Seq<AseLayerView>
    decreases layer,
{
    seq![written_view(layer, parent)] + match layer.kind {
        NormalizedLayerKind::Group => trees_views(layer.children@, Some(at as usize), at + 1),
        NormalizedLayerKind::Pixel => Seq::empty(),
    }
}

/// The file layers a list of sibling source trees writes below `parent`, from index `at`.
pub open spec fn trees_views(layers: Seq<NormalizedLayer>, parent: Option<usize>, at: int) -> Seq<AseLayerView>
    decreases layers,
{
    if layers.len() == 0 {
        Seq::empty()
    } else {
        tree_views(layers[0], parent, at) + trees_views(layers.subrange(1, layers.len() as int), parent, at + tree_size(layers[0]))
    }
}

/// A source pixel layer bound to the file layer written for it.
pub struct PixelBinding<'a> {
    /// The source layer.
    pub source: &'a NormalizedLayer,
    /// The layer written for it.
    pub layer: AseLayer,
    /// Source location of the layer.
    pub location: InformationLocation,
}

/// The source layers of a list of bindings, in order.
pub open spec fn bound_sources<'a>(bindings: Seq<PixelBinding<'a>>) -> Seq<NormalizedLayer> {
    bindings.map_values(|binding: PixelBinding<'a>| *binding.source)
}

/// Whether the file layer of a binding has its source's opacity, blend mode and visibility.
pub open spec fn binding_styled<'a>(binding: PixelBinding<'a>, layers: Seq<AseLayerView>) -> bool {
    let view = layers[binding.layer.index_in_file() as int];
    &&& binding.layer.index_in_file() < layers.len()
    &&& view.3 == written_view(*binding.source, None).3
    &&& view.4 == written_view(*binding.source, None).4
    &&& view.5 == written_view(*binding.source, None).5
}

/// Whether bindings name file layers named after their sources, that are no groups, in
/// increasing layer order.
pub open spec fn pixel_bindings_wf<'a>(bindings: Seq<PixelBinding<'a>>, layers: Seq<AseLayerView>) -> bool {
    &&& forall|b: int| 0 <= b < bindings.len() ==> {
        let binding = #[trigger] bindings[b];
        &&& binding.layer.index_in_file() < layers.len()
        &&& layers[binding.layer.index_in_file() as int].0 == binding.source.name@
        &&& !layers[binding.layer.index_in_file() as int].1
    }
    &&& forall|a: int, b: int| 0 <= a < b < bindings.len() ==> (#[trigger] bindings[a]).layer.index_in_file() < (#[trigger] bindings[b]).layer.index_in_file()
}

/// Writes a source layer's tree below a group (or at the top level): a group for a group
/// layer, then its children, or a normal layer for a pixel layer, whose own children are
/// left out with a warning. Each pixel layer is bound to its file layer.
pub fn create_layer_tree<'a>(
    file: &mut AsepriteFile,
    layer: &'a NormalizedLayer,
    parent: Option<&AseGroup>,
    path: String,
    bindings: &mut Vec<PixelBinding<'a>>,
    warnings: &mut WarningCollector,
)
    requires
        pixel_bindings_wf(old(bindings)@, ase_layers(*old(file))),
    ensures
        ase_frames(*final(file)) == ase_frames(*old(file)),
        ase_cels(*final(file)) == ase_cels(*old(file)),
        ase_tags(*final(file)) == ase_tags(*old(file)),
        ase_canvas(*final(file)) == ase_canvas(*old(file)),
        ase_layers(*final(file)).len() == ase_layers(*old(file)).len() + tree_size(*layer),
        ase_layers(*final(file)).take(ase_layers(*old(file)).len() as int) == ase_layers(*old(file)),
        ase_layers(*final(file)) == ase_layers(*old(file)) + tree_views(*layer, match parent { Some(p) => Some(p.index_in_file()), None => None },
            ase_layers(*old(file)).len() as int),
        final(bindings)@.len() >= old(bindings)@.len(),
        final(bindings)@.take(old(bindings)@.len() as int) == old(bindings)@,
        bound_sources(final(bindings)@.skip(old(bindings)@.len() as int)) == tree_pixels(*layer),
        pixel_bindings_wf(final(bindings)@, ase_layers(*final(file))),
        forall|b: int| old(bindings)@.len() <= b < final(bindings)@.len()
            ==> ase_layers(*old(file)).len() <= (#[trigger] final(bindings)@[b]).layer.index_in_file(),
        forall|b: int| old(bindings)@.len() <= b < final(bindings)@.len() ==> binding_styled(#[trigger] final(bindings)@[b], ase_layers(*final(file))),
    decreases layer,
{
    let ghost start = ase_layers(*file).len();
    let ghost start_file = *file;
    let ghost start_bindings = bindings@;
    let location = layer_location(path.as_str(), layer.id);
    let blend = blend_mode(&layer.blend_mode, &location, warnings);
    let opacity: u8 = match layer.opacity {
        Some(value) => value,
        None => 255,
    };
    let visible = any_enabled(layer);
    match layer.kind {
        NormalizedLayerKind::Group => {
            let group = match parent {
                Some(p) => add_group_in(file, layer.name.as_str(), p, opacity, blend, visible),
                None => add_top_group(file, layer.name.as_str(), opacity, blend, visible),
            };
            proof {
                assert forall|b: int| 0 <= b < bindings@.len() implies ase_layers(*file)[(#[trigger] bindings@[b]).layer.index_in_file() as int]
                    == ase_layers(start_file)[bindings@[b].layer.index_in_file() as int] by {}
                assert(bindings@.skip(start_bindings.len() as int) =~= Seq::<PixelBinding<'a>>::empty());
                assert(layer.children@.subrange(0, layer.children@.len() as int) =~= layer.children@);
                assert(blend == written_blend(*layer));
                assert(ase_layers(*file) + trees_views(layer.children@, Some(start as usize), start as int + 1)
                    =~= ase_layers(start_file) + tree_views(*layer, match parent { Some(p) => Some(p.index_in_file()), None => None }, start as int));
            }
            let mut i: usize = 0;
            while i < layer.children.len()
                invariant
                    i <= layer.children@.len(),
                    layer.kind == NormalizedLayerKind::Group,
                    start == ase_layers(start_file).len(),
                    start_file == *old(file),
                    start_bindings == old(bindings)@,
                    ase_frames(*file) == ase_frames(start_file),
                    ase_cels(*file) == ase_cels(start_file),
                    ase_tags(*file) == ase_tags(start_file),
                    ase_canvas(*file) == ase_canvas(start_file),
                    ase_layers(*file).len() + trees_size(layer.children@.subrange(i as int, layer.children@.len() as int))
                        == start + 1 + trees_size(layer.children@),
                    ase_layers(*file) + trees_views(layer.children@.subrange(i as int, layer.children@.len() as int), Some(start as usize),
                        ase_layers(*file).len() as int)
                        == ase_layers(start_file) + tree_views(*layer, match parent { Some(p) => Some(p.index_in_file()), None => None }, start as int),
                    ase_layers(*file).len() > start,
                    ase_layers(*file).take(start as int) == ase_layers(start_file),
                    group.index_in_file() == start,
                    ase_layers(*file)[start as int].1,
                    bindings@.len() >= start_bindings.len(),
                    bindings@.take(start_bindings.len() as int) == start_bindings,
                    pixel_bindings_wf(bindings@, ase_layers(*file)),
                    forall|b: int| start_bindings.len() <= b < bindings@.len() ==> start < (#[trigger] bindings@[b]).layer.index_in_file(),
                    forall|b: int| start_bindings.len() <= b < bindings@.len() ==> binding_styled(#[trigger] bindings@[b], ase_layers(*file)),
                    bound_sources(bindings@.skip(start_bindings.len() as int)) + trees_pixels(layer.children@.subrange(i as int, layer.children@.len() as int))
                        == trees_pixels(layer.children@),
                decreases layer.children@.len() - i,
            {
                let ghost tail = layer.children@.subrange(i as int, layer.children@.len() as int);
                let ghost before_file = *file;
                let ghost before_bindings = bindings@;
                proof {
                    assert(tail[0] == layer.children@[i as int]);
                    assert(tail.subrange(1, tail.len() as int) =~= layer.children@.subrange(i as int + 1, layer.children@.len() as int));
                    assert(decreases_to!(layer => layer.children));
                }
                let child = &layer.children[i];
                let child_path = layer_path(Some(path.as_str()), child);
                create_layer_tree(file, child, Some(&group), child_path, bindings, warnings);
                proof {
                    assert(ase_layers(*file).take(start as int) =~= ase_layers(before_file).take(ase_layers(before_file).len() as int).take(start as int));
                    assert(ase_layers(before_file).take(ase_layers(before_file).len() as int) =~= ase_layers(before_file));
                    assert(ase_layers(*file)[start as int] == ase_layers(before_file)[start as int]);
                    assert(bindings@.take(start_bindings.len() as int) =~= bindings@.take(before_bindings.len() as int).take(start_bindings.len() as int));
                    assert forall|b: int| start_bindings.len() <= b < bindings@.len() implies start < (#[trigger] bindings@[b]).layer.index_in_file() by {
                        if b < before_bindings.len() {
                            assert(bindings@.take(before_bindings.len() as int)[b] == bindings@[b]);
                        }
                    }
                    assert forall|b: int| start_bindings.len() <= b < bindings@.len() implies binding_styled(#[trigger] bindings@[b], ase_layers(*file)) by {
                        if b < before_bindings.len() {
                            assert(bindings@.take(before_bindings.len() as int)[b] == bindings@[b]);
                            assert(binding_styled(before_bindings[b], ase_layers(before_file)));
                            assert(ase_layers(*file)[bindings@[b].layer.index_in_file() as int] == ase_layers(before_file)[bindings@[b].layer.index_in_file() as int]);
                        }
                    }
                    let added = bindings@.skip(before_bindings.len() as int);
                    assert(bindings@.take(before_bindings.len() as int) == before_bindings);
                    assert(bindings@.skip(start_bindings.len() as int) =~= before_bindings.skip(start_bindings.len() as int) + added);
                    assert(bound_sources(bindings@.skip(start_bindings.len() as int)) =~= bound_sources(before_bindings.skip(start_bindings.len() as int)) + bound_sources(added));
                    assert(trees_pixels(tail) == tree_pixels(layer.children@[i as int]) + trees_pixels(layer.children@.subrange(i as int + 1, layer.children@.len() as int)));
                    assert(trees_size(tail) == tree_size(layer.children@[i as int]) + trees_size(layer.children@.subrange(i as int + 1, layer.children@.len() as int)));
                    assert(trees_views(tail, Some(start as usize), ase_layers(before_file).len() as int)
                        == tree_views(layer.children@[i as int], Some(start as usize), ase_layers(before_file).len() as int)
                        + trees_views(layer.children@.subrange(i as int + 1, layer.children@.len() as int), Some(start as usize),
                            ase_layers(*file).len() as int));
                    assert(ase_layers(*file) + trees_views(layer.children@.subrange(i as int + 1, layer.children@.len() as int), Some(start as usize),
                        ase_layers(*file).len() as int)
                        =~= ase_layers(before_file) + trees_views(tail, Some(start as usize), ase_layers(before_file).len() as int));
                }
                i = i + 1;
            }
            proof {
                assert(layer.children@.subrange(layer.children@.len() as int, layer.children@.len() as int) =~= Seq::<NormalizedLayer>::empty());
                assert(ase_layers(*file) + trees_views(Seq::<NormalizedLayer>::empty(), Some(start as usize), ase_layers(*file).len() as int)
                    =~= ase_layers(*file));
                assert(bound_sources(bindings@.skip(start_bindings.len() as int)) + Seq::<NormalizedLayer>::empty()
                    =~= bound_sources(bindings@.skip(start_bindings.len() as int)));
            }
        },
        NormalizedLayerKind::Pixel => {
            let handle = match parent {
                Some(p) => add_layer_in(file, layer.name.as_str(), p, opacity, blend, visible),
                None => add_top_layer(file, layer.name.as_str(), opacity, blend, visible),
            };
            let has_children = layer.children.len() > 0;
            bindings.push(PixelBinding { source: layer, layer: handle, location: copy_location(&location) });
            proof {
                assert(blend == written_blend(*layer));
                assert(ase_layers(*file) =~= ase_layers(start_file) + tree_views(*layer, match parent { Some(p) => Some(p.index_in_file()), None => None },
                    start as int));
                assert(bindings@.take(start_bindings.len() as int) =~= start_bindings);
                assert(binding_styled(bindings@[start_bindings.len() as int], ase_layers(*file)));
                assert(bindings@.skip(start_bindings.len() as int) =~= seq![bindings@.last()]);
                assert(bound_sources(bindings@.skip(start_bindings.len() as int)) =~= seq![*layer]);
                assert(ase_layers(*file).take(start as int) =~= ase_layers(start_file));
                assert forall|b: int| 0 <= b < bindings@.len() implies {
                    let binding = #[trigger] bindings@[b];
                    &&& binding.layer.index_in_file() < ase_layers(*file).len()
                    &&& ase_layers(*file)[binding.layer.index_in_file() as int].0 == binding.source.name@
                    &&& !ase_layers(*file)[binding.layer.index_in_file() as int].1
                } by {
                    if b < start_bindings.len() {
                        assert(bindings@[b] == start_bindings[b]);
                    }
                }
            }
            if has_children {
                let mut message = String::new();
                message.append("pixel layer ");
                append_unsigned(&mut message, layer.id as u64);
                message.append(" has children; children were not serialized");
                warnings.push(InformationLossCode::PixelLayerChildren, LossDisposition::Dropped, location, message, true, true);
            }
        },
    }
}


/// The pixel layers effectively visible in frame `f` of a document, by ID in tree order.
fn visible_ids(document: &NormalizedDocument, f: usize) -> (ids: Vec<u32>)
    ensures
        ids@ == visible_pixel_ids_in(document.root_layers@, f as int, true),
{
    let roots = &document.root_layers;
    let mut ids: Vec<u32> = Vec::new();
    let mut i: usize = 0;
    assert(roots@.subrange(0, roots@.len() as int) =~= roots@);
    while i < roots.len()
        invariant
            i <= roots@.len(),
            visible_pixel_ids_in(roots@, f as int, true)
                == ids@ + visible_pixel_ids_in(roots@.subrange(i as int, roots@.len() as int), f as int, true),
        decreases roots@.len() - i,
    {
        let ghost tail = roots@.subrange(i as int, roots@.len() as int);
        let ghost before = ids@;
        proof {
            assert(tail[0] == roots@[i as int]);
            assert(tail.subrange(1, tail.len() as int) =~= roots@.subrange(i as int + 1, roots@.len() as int));
        }
        roots[i].collect_visible_pixel_layer_ids(f, true, &mut ids);
        proof {
            let head = visible_pixel_ids(roots@[i as int], f as int, true);
            let later = visible_pixel_ids_in(roots@.subrange(i as int + 1, roots@.len() as int), f as int, true);
            assert(before + (head + later) =~= (before + head) + later);
        }
        i = i + 1;
    }
    proof {
        assert(roots@.subrange(roots@.len() as int, roots@.len() as int) =~= Seq::<NormalizedLayer>::empty());
        assert(ids@ + Seq::<u32>::empty() =~= ids@);
    }
    ids
}

fn ids_contain(ids: &Vec<u32>, id: u32) -> (found: bool)
    ensures
        found == ids@.contains(id),
{
    let mut i: usize = 0;
    while i < ids.len()
        invariant
            i <= ids@.len(),
            forall|j: int| 0 <= j < i ==> ids@[j] != id,
        decreases ids@.len() - i,
    {
        if ids[i] == id {
            assert(ids@[i as int] == id);
            return true;
        }
        i = i + 1;
    }
    false
}

/// Whether the document shows pixel layer `layer` in frame `f`: its ID is among the layers
/// effectively visible there.
pub open spec fn cel_shown(document: NormalizedDocument, layer: NormalizedLayer, f: int) -> bool {
    visible_pixel_ids_in(document.root_layers@, f, true).contains(layer.id)
}

/// Whether a pixel layer has pixels of some size.
pub open spec fn cel_nonempty(layer: NormalizedLayer) -> bool {
    layer.pixels is Some && (layer.pixels->0).width > 0 && (layer.pixels->0).height > 0
}

/// Whether the cel of a pixel layer in frame `f` can be written when the frame shows it: a
/// state for the frame, pixels, and, unless they are empty, a writable cel.
pub open spec fn shown_cel_writable(document: NormalizedDocument, layer: NormalizedLayer, f: int) -> bool {
    cel_shown(document, layer, f) ==> {
        &&& f < layer.frame_enabled@.len()
        &&& layer.pixels is Some
        &&& (cel_nonempty(layer) ==> layer_cel_writable(layer, f))
    }
}

/// Whether every shown cel of the listed pixel layers in the first `n` frames can be written.
pub open spec fn document_cels_writable(document: NormalizedDocument, sources: Seq<NormalizedLayer>, n: int) -> bool {
    forall|f: int, b: int| 0 <= f < n && 0 <= b < sources.len() ==> #[trigger] shown_cel_writable(document, sources[b], f)
}

/// Whether frame `f` writes a cel of a pixel layer.
pub open spec fn cel_due(document: NormalizedDocument, layer: NormalizedLayer, f: int) -> bool {
    cel_shown(document, layer, f) && cel_nonempty(layer)
}

/// The number of cels frame `f` writes for the first `b` listed pixel layers.
pub open spec fn row_due(document: NormalizedDocument, sources: Seq<NormalizedLayer>, f: int, b: int) -> nat
    decreases b,
{
    if b <= 0 {
        0
    } else {
        row_due(document, sources, f, b - 1) + if cel_due(document, sources[b - 1], f) { 1nat } else { 0nat }
    }
}

/// The number of cels the first `f` frames write for the listed pixel layers.
pub open spec fn rows_due(document: NormalizedDocument, sources: Seq<NormalizedLayer>, f: int) -> nat
    decreases f,
{
    if f <= 0 {
        0
    } else {
        rows_due(document, sources, f - 1) + row_due(document, sources, f - 1, sources.len() as int)
    }
}

/// Whether the cels of the cells before `(g, c)` are what the document asks: each due cel
/// rightly stored with Z-Index 0, no cel elsewhere, and none yet for a later cell.
pub open spec fn document_cels_so_far<'a>(
    cels: Map<(usize, usize), AseCelView>,
    document: NormalizedDocument,
    bindings: Seq<PixelBinding<'a>>,
    n: int,
    g: int,
    c: int,
) -> bool {
    forall|f: int, b: int| 0 <= f < n && 0 <= b < bindings.len() ==> {
        let key = (bindings[b].layer.index_in_file(), f as usize);
        if #[trigger] cell_before(f, b, g, c) && cel_due(document, *bindings[b].source, f) {
            layer_cel_stored(cels, bindings[b].layer.index_in_file(), f as usize, *bindings[b].source, 0)
        } else {
            !cels.contains_key(key)
        }
    }
}

/// Writes the cel of every bound pixel layer in every frame that shows it, frame by frame
/// and, within a frame, in binding order, with one cel-reuse tracker per binding.
pub fn emit_document_cels<'a>(
    file: &mut AsepriteFile,
    bindings: &Vec<PixelBinding<'a>>,
    document: &NormalizedDocument,
    linked_cels: LinkedCelMode,
) -> (emitted: Result<CelReuseReport, WriterError>)
    requires
        pixel_bindings_wf(bindings@, ase_layers(*old(file))),
        ase_cels(*old(file)) == no_cels(),
        ase_frames(*old(file)).len() == document.frames@.len(),
        document.frames@.len() * bindings@.len() <= usize::MAX,
    ensures
        ase_frames(*final(file)) == ase_frames(*old(file)),
        ase_layers(*final(file)) == ase_layers(*old(file)),
        ase_tags(*final(file)) == ase_tags(*old(file)),
        ase_canvas(*final(file)) == ase_canvas(*old(file)),
        emitted is Ok <==> document_cels_writable(*document, bound_sources(bindings@), document.frames@.len() as int),
        emitted is Ok ==> document_cels_so_far(ase_cels(*final(file)), *document, bindings@, document.frames@.len() as int,
            document.frames@.len() as int, 0),
        emitted is Ok ==> linked_cels == LinkedCelMode::Off ==> forall|key: (usize, usize)| #[trigger] ase_cels(*final(file)).contains_key(key)
            ==> ase_cels(*final(file))[key].0 is None,
        emitted matches Ok(report) ==> report.pixel_cel_count + report.linked_cel_count
            == rows_due(*document, bound_sources(bindings@), document.frames@.len() as int),
        emitted matches Ok(report) ==> linked_cels == LinkedCelMode::Off ==> report.linked_cel_count == 0,
{
    let n = document.frames.len();
    let count = bindings.len();
    let ghost sources = bound_sources(bindings@);
    let mut trackers: Vec<CelReuseTracker> = Vec::new();
    let mut t: usize = 0;
    while t < count
        invariant
            t <= count,
            count == bindings@.len(),
            trackers@.len() == t,
            forall|b: int| 0 <= b < t ==> (#[trigger] trackers@[b]).mode == linked_cels && trackers@[b].sources@.len() == 0
                && sources_hashed(trackers@[b].sources@)
                && trackers@[b].report.pixel_cel_count == 0 && trackers@[b].report.linked_cel_count == 0,
        decreases count - t,
    {
        trackers.push(CelReuseTracker::new(linked_cels));
        t = t + 1;
    }
    let mut pixel_total: usize = 0;
    let mut linked_total: usize = 0;
    let ghost start_file = *file;
    let mut f: usize = 0;
    while f < n
        invariant
            n == document.frames@.len(),
            count == bindings@.len(),
            sources == bound_sources(bindings@),
            f <= n,
            n * count <= usize::MAX,
            trackers@.len() == count,
            pixel_bindings_wf(bindings@, ase_layers(*file)),
            ase_frames(*file).len() == n,
            ase_frames(*file) == ase_frames(start_file),
            ase_layers(*file) == ase_layers(start_file),
            ase_tags(*file) == ase_tags(start_file),
            ase_canvas(*file) == ase_canvas(start_file),
            start_file == *old(file),
            forall|b: int| 0 <= b < count ==> tracker_in_file(#[trigger] trackers@[b], ase_cels(*file), bindings@[b].layer.index_in_file(), f as int)
                && trackers@[b].mode == linked_cels
                && trackers@[b].report.pixel_cel_count + trackers@[b].report.linked_cel_count <= f,
            pixel_total + linked_total <= f * count,
            pixel_total + linked_total == rows_due(*document, sources, f as int),
            linked_cels == LinkedCelMode::Off ==> linked_total == 0,
            document_cels_so_far(ase_cels(*file), *document, bindings@, n as int, f as int, 0),
            document_cels_writable(*document, sources, f as int),
            linked_cels == LinkedCelMode::Off ==> forall|key: (usize, usize)| #[trigger] ase_cels(*file).contains_key(key) ==> ase_cels(*file)[key].0 is None,
        decreases n - f,
    {
        let visible = visible_ids(document, f);
        let mut b: usize = 0;
        proof {
            assert(f * count + count <= n * count) by (nonlinear_arith)
                requires f < n;
        }
        while b < count
            invariant
                n == document.frames@.len(),
                count == bindings@.len(),
                sources == bound_sources(bindings@),
                visible@ == visible_pixel_ids_in(document.root_layers@, f as int, true),
                f < n,
                b <= count,
                f * count + count <= usize::MAX,
                trackers@.len() == count,
                pixel_bindings_wf(bindings@, ase_layers(*file)),
                ase_frames(*file).len() == n,
                ase_frames(*file) == ase_frames(start_file),
                ase_layers(*file) == ase_layers(start_file),
                ase_tags(*file) == ase_tags(start_file),
                ase_canvas(*file) == ase_canvas(start_file),
                start_file == *old(file),
                forall|c: int| 0 <= c < count ==> tracker_in_file(#[trigger] trackers@[c], ase_cels(*file), bindings@[c].layer.index_in_file(),
                    if c < b { f as int + 1 } else { f as int })
                    && trackers@[c].mode == linked_cels
                    && trackers@[c].report.pixel_cel_count + trackers@[c].report.linked_cel_count <= (if c < b { f as int + 1 } else { f as int }),
                pixel_total + linked_total <= f * count + b,
                pixel_total + linked_total == rows_due(*document, sources, f as int) + row_due(*document, sources, f as int, b as int),
                linked_cels == LinkedCelMode::Off ==> linked_total == 0,
                document_cels_so_far(ase_cels(*file), *document, bindings@, n as int, f as int, b as int),
                document_cels_writable(*document, sources, f as int),
                forall|c: int| 0 <= c < b ==> #[trigger] shown_cel_writable(*document, sources[c], f as int),
                linked_cels == LinkedCelMode::Off ==> forall|key: (usize, usize)| #[trigger] ase_cels(*file).contains_key(key) ==> ase_cels(*file)[key].0 is None,
            decreases count - b,
        {
            let binding = &bindings[b];
            let source: &NormalizedLayer = binding.source;
            proof {
                assert(sources[b as int] == *source);
            }
            let ghost before_cels = ase_cels(*file);
            let ghost before_trackers = trackers@;
            let ghost index = binding.layer.index_in_file();
            if ids_contain(&visible, source.id) {
                if f >= source.frame_enabled.len() {
                    let mut message = String::new();
                    message.append("missing frame state ");
                    append_unsigned(&mut message, f as u64);
                    proof {
                        assert(!shown_cel_writable(*document, sources[b as int], f as int));
                    }
                    return Err(WriterError::InvalidPixels { layer_id: source.id, message });
                }
                let nonempty = match &source.pixels {
                    Some(pixels) => pixels.width > 0 && pixels.height > 0,
                    None => {
                        proof {
                            assert(!shown_cel_writable(*document, sources[b as int], f as int));
                        }
                        return Err(WriterError::InvalidPixels { layer_id: source.id, message: "pixel layer has no owned data".to_owned() });
                    },
                };
                if nonempty {
                    let key = (binding.layer.index(), f);
                    proof {
                        assert(!cell_before(f as int, b as int, f as int, b as int));
                        assert(!before_cels.contains_key(key));
                        assert(trackers@[b as int].report.pixel_cel_count < usize::MAX);
                    }
                    let emitted = emit_layer_cel(file, &binding.layer, f, source, 0, &mut trackers[b]);
                    match emitted {
                        Ok(linked) => {
                            if linked {
                                linked_total = linked_total + 1;
                            } else {
                                pixel_total = pixel_total + 1;
                            }
                        },
                        Err(e) => {
                            proof {
                                assert(!shown_cel_writable(*document, sources[b as int], f as int));
                            }
                            return Err(e);
                        },
                    }
                    let ghost view = ase_cels(*file)[key];
                    proof {
                        assert(ase_cels(*file) == before_cels.insert(key, view));
                        assert forall|c: int| 0 <= c < count && c != b implies tracker_in_file(#[trigger] trackers@[c], ase_cels(*file), bindings@[c].layer.index_in_file(),
                            if c < b { f as int + 1 } else { f as int }) by {
                            assert(trackers@[c] == before_trackers[c]);
                            lemma_tracker_kept(before_trackers[c], before_cels, key, view, bindings@[c].layer.index_in_file(),
                                if c < b { f as int + 1 } else { f as int }, if c < b { f as int + 1 } else { f as int });
                        }
                        assert(bindings@[b as int].source == binding.source);
                        assert(cel_due(*document, *bindings@[b as int].source, f as int));
                        lemma_cel_written(before_cels, key, view, *document, bindings@, n as int, f as int, b as int);
                    }
                } else {
                    proof {
                        assert(!cel_nonempty(*source));
                        assert(!cel_due(*document, sources[b as int], f as int));
                    }
                    proof {
                        lemma_cel_skipped(ase_cels(*file), *document, bindings@, n as int, f as int, b as int);
                    }
                }
            } else {
                proof {
                    assert(!cel_shown(*document, sources[b as int], f as int));
                }
                proof {
                    lemma_cel_skipped(ase_cels(*file), *document, bindings@, n as int, f as int, b as int);
                }
            }
            proof {
                assert(pixel_total + linked_total <= f * count + b + 1);
                assert(row_due(*document, sources, f as int, b as int + 1) == row_due(*document, sources, f as int, b as int)
                    + if cel_due(*document, sources[b as int], f as int) { 1nat } else { 0nat });
                assert(shown_cel_writable(*document, sources[b as int], f as int));
            }
            b = b + 1;
        }
        proof {
            assert((f + 1) * count == f * count + count) by (nonlinear_arith);
            assert(rows_due(*document, sources, f as int + 1) == rows_due(*document, sources, f as int) + row_due(*document, sources, f as int, count as int));
            assert forall|g: int, c: int| 0 <= g < f + 1 && 0 <= c < sources.len() implies #[trigger] shown_cel_writable(*document, sources[c], g) by {}
            assert forall|g: int, c: int| 0 <= g < n && 0 <= c < bindings@.len() implies {
                let k = (bindings@[c].layer.index_in_file(), g as usize);
                if #[trigger] cell_before(g, c, f as int + 1, 0) && cel_due(*document, *bindings@[c].source, g) {
                    layer_cel_stored(ase_cels(*file), bindings@[c].layer.index_in_file(), g as usize, *bindings@[c].source, 0)
                } else {
                    !ase_cels(*file).contains_key(k)
                }
            } by {
                assert(cell_before(g, c, f as int, count as int) == cell_before(g, c, f as int + 1, 0));
            }
        }
        f = f + 1;
    }
    Ok(CelReuseReport { pixel_cel_count: pixel_total, linked_cel_count: linked_total })
}

/// The cels stay as the document asks past a cell whose due cel was just written.
proof fn lemma_cel_written<'a>(
    cels: Map<(usize, usize), AseCelView>,
    key: (usize, usize),
    view: AseCelView,
    document: NormalizedDocument,
    bindings: Seq<PixelBinding<'a>>,
    n: int,
    f: int,
    b: int,
)
    requires
        document_cels_so_far(cels, document, bindings, n, f, b),
        0 <= b < bindings.len(),
        0 <= f < n <= usize::MAX,
        key == (bindings[b].layer.index_in_file(), f as usize),
        layer_cel_stored(cels.insert(key, view), bindings[b].layer.index_in_file(), f as usize, *bindings[b].source, 0),
        forall|x: int, y: int| 0 <= x < y < bindings.len() ==> (#[trigger] bindings[x]).layer.index_in_file() < (#[trigger] bindings[y]).layer.index_in_file(),
        !cels.contains_key(key),
        cel_due(document, *bindings[b].source, f),
    ensures
        document_cels_so_far(cels.insert(key, view), document, bindings, n, f, b + 1),
{
    let next = cels.insert(key, view);
    assert forall|g: int, c: int| 0 <= g < n && 0 <= c < bindings.len() implies {
        let k = (bindings[c].layer.index_in_file(), g as usize);
        if #[trigger] cell_before(g, c, f, b + 1) && cel_due(document, *bindings[c].source, g) {
            layer_cel_stored(next, bindings[c].layer.index_in_file(), g as usize, *bindings[c].source, 0)
        } else {
            !next.contains_key(k)
        }
    } by {
        assert(cell_before(g, c, f, b) || (g == f && c == b) || !cell_before(g, c, f, b + 1));
        if c != b {
            if c < b {
                assert(bindings[c].layer.index_in_file() < bindings[b].layer.index_in_file());
            } else {
                assert(bindings[b].layer.index_in_file() < bindings[c].layer.index_in_file());
            }
        }
        if cell_before(g, c, f, b) && cel_due(document, *bindings[c].source, g) {
            lemma_layer_stored_kept(cels, key, view, bindings[c].layer.index_in_file(), g as usize, *bindings[c].source, 0);
        }
    }
}

/// The cels stay as the document asks past a cell that writes no cel.
proof fn lemma_cel_skipped<'a>(
    cels: Map<(usize, usize), AseCelView>,
    document: NormalizedDocument,
    bindings: Seq<PixelBinding<'a>>,
    n: int,
    f: int,
    b: int,
)
    requires
        document_cels_so_far(cels, document, bindings, n, f, b),
        0 <= b < bindings.len(),
        !cel_due(document, *bindings[b].source, f),
    ensures
        document_cels_so_far(cels, document, bindings, n, f, b + 1),
{
    assert forall|g: int, c: int| 0 <= g < n && 0 <= c < bindings.len() implies {
        let k = (bindings[c].layer.index_in_file(), g as usize);
        if #[trigger] cell_before(g, c, f, b + 1) && cel_due(document, *bindings[c].source, g) {
            layer_cel_stored(cels, bindings[c].layer.index_in_file(), g as usize, *bindings[c].source, 0)
        } else {
            !cels.contains_key(k)
        }
    } by {
        assert(cell_before(g, c, f, b) || (g == f && c == b) || !cell_before(g, c, f, b + 1));
    }
}

/// A layer's cel stays rightly stored when a cel is added under a new key.
proof fn lemma_layer_stored_kept(cels: Map<(usize, usize), AseCelView>, key: (usize, usize), view: AseCelView, index: usize, f: usize, layer: NormalizedLayer, z_index: i16)
    requires
        layer_cel_stored(cels, index, f, layer, z_index),
        !cels.contains_key(key),
    ensures
        layer_cel_stored(cels.insert(key, view), index, f, layer, z_index),
{
    let next = cels.insert(key, view);
    assert(key != (index, f));
    assert(next[(index, f)] == cels[(index, f)]);
    if let Some(source) = cels[(index, f)].0 {
        assert(key != (index, source));
        assert(next[(index, source)] == cels[(index, source)]);
    }
}


/// Pixel bindings in increasing layer order from zero are no more than the layers.
proof fn lemma_pixel_index_at_least<'a>(bindings: Seq<PixelBinding<'a>>, layers: Seq<AseLayerView>, b: int)
    requires
        pixel_bindings_wf(bindings, layers),
        0 <= b < bindings.len(),
    ensures
        bindings[b].layer.index_in_file() >= b,
    decreases b,
{
    if b > 0 {
        lemma_pixel_index_at_least(bindings, layers, b - 1);
        assert(bindings[b - 1].layer.index_in_file() < bindings[b].layer.index_in_file());
    }
}

/// Writes the layer trees of a document's top-level layers in order, binding every pixel
/// layer to its file layer.
pub fn create_document_tree<'a>(
    file: &mut AsepriteFile,
    document: &'a NormalizedDocument,
    bindings: &mut Vec<PixelBinding<'a>>,
    warnings: &mut WarningCollector,
)
    requires
        old(bindings)@.len() == 0,
        ase_layers(*old(file)).len() == 0,
    ensures
        ase_frames(*final(file)) == ase_frames(*old(file)),
        ase_cels(*final(file)) == ase_cels(*old(file)),
        ase_tags(*final(file)) == ase_tags(*old(file)),
        ase_canvas(*final(file)) == ase_canvas(*old(file)),
        ase_layers(*final(file)).len() == trees_size(document.root_layers@),
        ase_layers(*final(file)) == trees_views(document.root_layers@, None, 0),
        bound_sources(final(bindings)@) == trees_pixels(document.root_layers@),
        pixel_bindings_wf(final(bindings)@, ase_layers(*final(file))),
        forall|b: int| 0 <= b < final(bindings)@.len() ==> binding_styled(#[trigger] final(bindings)@[b], ase_layers(*final(file))),
{
    let roots = &document.root_layers;
    let ghost start_file = *file;
    let mut i: usize = 0;
    assert(roots@.subrange(0, roots@.len() as int) =~= roots@);
    assert(bound_sources(bindings@) =~= Seq::<NormalizedLayer>::empty());
    assert(ase_layers(*file) + trees_views(roots@, None, 0) =~= trees_views(roots@, None, 0));
    while i < roots.len()
        invariant
            i <= roots@.len(),
            roots == &document.root_layers,
            start_file == *old(file),
            ase_frames(*file) == ase_frames(start_file),
            ase_cels(*file) == ase_cels(start_file),
            ase_tags(*file) == ase_tags(start_file),
            ase_canvas(*file) == ase_canvas(start_file),
            ase_layers(*file).len() + trees_size(roots@.subrange(i as int, roots@.len() as int)) == trees_size(roots@),
            ase_layers(*file) + trees_views(roots@.subrange(i as int, roots@.len() as int), None, ase_layers(*file).len() as int)
                == trees_views(roots@, None, 0),
            pixel_bindings_wf(bindings@, ase_layers(*file)),
            forall|b: int| 0 <= b < bindings@.len() ==> binding_styled(#[trigger] bindings@[b], ase_layers(*file)),
            bound_sources(bindings@) + trees_pixels(roots@.subrange(i as int, roots@.len() as int)) == trees_pixels(roots@),
        decreases roots@.len() - i,
    {
        let ghost tail = roots@.subrange(i as int, roots@.len() as int);
        let ghost before_bindings = bindings@;
        proof {
            assert(tail[0] == roots@[i as int]);
            assert(tail.subrange(1, tail.len() as int) =~= roots@.subrange(i as int + 1, roots@.len() as int));
        }
        let ghost before_file = *file;
        let layer = &roots[i];
        let path = layer_path(None, layer);
        create_layer_tree(file, layer, None, path, bindings, warnings);
        proof {
            assert(trees_views(tail, None, ase_layers(before_file).len() as int)
                == tree_views(roots@[i as int], None, ase_layers(before_file).len() as int)
                + trees_views(roots@.subrange(i as int + 1, roots@.len() as int), None, ase_layers(*file).len() as int));
            assert(ase_layers(*file) + trees_views(roots@.subrange(i as int + 1, roots@.len() as int), None, ase_layers(*file).len() as int)
                =~= ase_layers(before_file) + trees_views(tail, None, ase_layers(before_file).len() as int));
            let added = bindings@.skip(before_bindings.len() as int);
            assert(bindings@.take(before_bindings.len() as int) == before_bindings);
            assert(bindings@ =~= before_bindings + added);
            assert forall|b: int| 0 <= b < bindings@.len() implies binding_styled(#[trigger] bindings@[b], ase_layers(*file)) by {
                if b < before_bindings.len() {
                    assert(bindings@.take(before_bindings.len() as int)[b] == bindings@[b]);
                    assert(binding_styled(before_bindings[b], ase_layers(before_file)));
                    assert(ase_layers(*file)[bindings@[b].layer.index_in_file() as int] == ase_layers(before_file)[bindings@[b].layer.index_in_file() as int]);
                }
            }
            assert(bound_sources(bindings@) =~= bound_sources(before_bindings) + bound_sources(added));
            assert(trees_pixels(tail) == tree_pixels(roots@[i as int]) + trees_pixels(roots@.subrange(i as int + 1, roots@.len() as int)));
            assert(trees_size(tail) == tree_size(roots@[i as int]) + trees_size(roots@.subrange(i as int + 1, roots@.len() as int)));
            assert(bound_sources(before_bindings) + (tree_pixels(roots@[i as int]) + trees_pixels(roots@.subrange(i as int + 1, roots@.len() as int)))
                =~= (bound_sources(before_bindings) + tree_pixels(roots@[i as int])) + trees_pixels(roots@.subrange(i as int + 1, roots@.len() as int)));
        }
        i = i + 1;
    }
    proof {
        assert(roots@.subrange(roots@.len() as int, roots@.len() as int) =~= Seq::<NormalizedLayer>::empty());
        assert(bound_sources(bindings@) + Seq::<NormalizedLayer>::empty() =~= bound_sources(bindings@));
        assert(ase_layers(*file) + trees_views(Seq::<NormalizedLayer>::empty(), None, ase_layers(*file).len() as int) =~= ase_layers(*file));
    }
}

/// Whether a document can be written layer for layer: the timeline and every cel the
/// document shows.
pub open spec fn document_writable(document: NormalizedDocument) -> bool {
    &&& timeline_writable(document)
    &&& document_cels_writable(document, trees_pixels(document.root_layers@), document.frames@.len() as int)
}

/// The Aseprite file built layer for layer from a document, before it is written out.
pub struct DocumentFile {
    /// The file.
    pub file: AsepriteFile,
    /// The warnings collected while mapping layers.
    pub warnings: WarningCollector,
    /// The cels written.
    pub cel_reuse: CelReuseReport,
}

/// Builds the Aseprite file of a document layer for layer: the timeline, one group or
/// layer per source layer in tree order, and one cel per pixel layer in every frame that
/// shows it with pixels, linking identical cels of a layer on request.
pub fn build_document_file(document: &NormalizedDocument, linked_cels: LinkedCelMode) -> (built: Result<DocumentFile, WriterError>)
    requires
        document.frames@.len() * trees_size(document.root_layers@) <= usize::MAX,
    ensures
        built is Ok <==> document_writable(*document),
        !timeline_writable(*document) ==> (built matches Err(e) && timeline_error(*document, e)),
        built matches Ok(made) ==> {
            let file = made.file;
            let sources = trees_pixels(document.root_layers@);
            &&& timeline_written(file, *document)
            &&& ase_layers(file).len() == trees_size(document.root_layers@)
            &&& ase_layers(file) == trees_views(document.root_layers@, None, 0)
            &&& exists|bindings: Seq<PixelBinding>| {
                &&& bound_sources(bindings) == sources
                &&& pixel_bindings_wf(bindings, ase_layers(file))
                &&& forall|b: int| 0 <= b < bindings.len() ==> binding_styled(#[trigger] bindings[b], ase_layers(file))
                &&& document_cels_so_far(ase_cels(file), *document, bindings, document.frames@.len() as int, document.frames@.len() as int, 0)
            }
            &&& made.cel_reuse.pixel_cel_count + made.cel_reuse.linked_cel_count == rows_due(*document, sources, document.frames@.len() as int)
            &&& (linked_cels == LinkedCelMode::Off ==> made.cel_reuse.linked_cel_count == 0)
            &&& (linked_cels == LinkedCelMode::Off ==> forall|key: (usize, usize)| #[trigger] ase_cels(file).contains_key(key) ==> ase_cels(file)[key].0 is None)
        },
{
    let mut file = initialize_file(document)?;
    let mut warnings = WarningCollector::new();
    let mut bindings: Vec<PixelBinding> = Vec::new();
    create_document_tree(&mut file, document, &mut bindings, &mut warnings);
    let n = document.frames.len();
    proof {
        if bindings@.len() > 0 {
            lemma_pixel_index_at_least(bindings@, ase_layers(file), bindings@.len() - 1);
        }
        assert(bindings@.len() <= trees_size(document.root_layers@));
        assert(n * bindings@.len() <= n * trees_size(document.root_layers@)) by (nonlinear_arith)
            requires bindings@.len() <= trees_size(document.root_layers@);
    }
    let emitted = emit_document_cels(&mut file, &bindings, document, linked_cels);
    let cel_reuse = match emitted {
        Ok(report) => report,
        Err(e) => {
            return Err(e);
        },
    };
    Ok(DocumentFile { file, warnings, cel_reuse })
}

/// Encodes a document as an Aseprite file layer for layer, linking identical cels of a layer
/// when `linked_cels` asks for it. Succeeds only where the document can be written; the
/// bytes are those of the file `build_document_file` gives.
pub fn encode_with_linked_cels(document: &NormalizedDocument, linked_cels: LinkedCelMode) -> (encoded: Result<EncodedAseprite, WriterError>)
    requires
        document.frames@.len() * trees_size(document.root_layers@) <= usize::MAX,
    ensures
        encoded is Ok ==> document_writable(*document),
        !document_writable(*document) ==> encoded is Err,
        !timeline_writable(*document) ==> (encoded matches Err(e) && timeline_error(*document, e)),
        encoded matches Ok(result) ==> {
            &&& result.cel_reuse.pixel_cel_count + result.cel_reuse.linked_cel_count
                == rows_due(*document, trees_pixels(document.root_layers@), document.frames@.len() as int)
            &&& (linked_cels == LinkedCelMode::Off ==> result.cel_reuse.linked_cel_count == 0)
            &&& result.warnings@.len() == result.warning_details@.len()
            &&& forall|i: int| 0 <= i < result.warnings@.len() ==> #[trigger] result.warnings@[i] == result.warning_details@[i].message
        },
{
    let made = build_document_file(document, linked_cels)?;
    let bytes = match write_file_bytes(&made.file) {
        Ok(bytes) => bytes,
        Err(error) => {
            return Err(WriterError::Aseprite(aseprite_error_text(&error)));
        },
    };
    let (warnings, warning_details) = made.warnings.into_parts();
    Ok(EncodedAseprite { bytes, warnings, warning_details, cel_reuse: made.cel_reuse })
}

/// Encodes a document as an Aseprite file layer for layer, every cel with its own pixels.
pub fn encode(document: &NormalizedDocument) -> (encoded: Result<EncodedAseprite, WriterError>)
    requires
        document.frames@.len() * trees_size(document.root_layers@) <= usize::MAX,
    ensures
        encoded is Ok ==> document_writable(*document),
        !document_writable(*document) ==> encoded is Err,
        !timeline_writable(*document) ==> (encoded matches Err(e) && timeline_error(*document, e)),
        encoded matches Ok(result) ==> {
            &&& result.cel_reuse.pixel_cel_count == rows_due(*document, trees_pixels(document.root_layers@), document.frames@.len() as int)
            &&& result.cel_reuse.linked_cel_count == 0
        },
{
    encode_with_linked_cels(document, LinkedCelMode::Off)
}


/// A source layer's tree in the order it is written: the layer, then for a group its
/// children's trees; a pixel layer's children are not written.
pub open spec fn tree_flat(layer: NormalizedLayer) -> Seq<NormalizedLayer>
    decreases layer,
{
    seq![layer] + match layer.kind {
        NormalizedLayerKind::Group => trees_flat(layer.children@),
        NormalizedLayerKind::Pixel => Seq::empty(),
    }
}

/// A list of sibling source trees in the order they are written.
pub open spec fn trees_flat(layers: Seq<NormalizedLayer>) -> Seq<NormalizedLayer>
    decreases layers,
{
    if layers.len() == 0 {
        Seq::empty()
    } else {
        tree_flat(layers[0]) + trees_flat(layers.subrange(1, layers.len() as int))
    }
}

/// Whether a file layer carries a source layer's attributes.
spec fn carries(view: AseLayerView, layer: NormalizedLayer) -> bool {
    &&& view.0 == layer.name@
    &&& view.1 == (layer.kind == NormalizedLayerKind::Group)
    &&& view.3 == match layer.opacity { Some(value) => value, None => 255u8 }
    &&& view.4 == match layer.blend_mode {
        Some(name) => match blend_of(name@) { Some(mapped) => mapped, None => AseBlend::Normal },
        None => AseBlend::Normal,
    }
    &&& view.5 == exists|f: int| 0 <= f < layer.frame_enabled@.len() && layer.frame_enabled@[f]
}

proof fn lemma_tree_carries(layer: NormalizedLayer, parent: Option<usize>, at: int)
    ensures
        tree_views(layer, parent, at).len() == tree_flat(layer).len(),
        forall|i: int| 0 <= i < tree_flat(layer).len() ==> carries(#[trigger] tree_views(layer, parent, at)[i], tree_flat(layer)[i]),
    decreases layer,
{
    let rest_views = match layer.kind {
        NormalizedLayerKind::Group => trees_views(layer.children@, Some(at as usize), at + 1),
        NormalizedLayerKind::Pixel => Seq::<AseLayerView>::empty(),
    };
    let rest_flat = match layer.kind {
        NormalizedLayerKind::Group => trees_flat(layer.children@),
        NormalizedLayerKind::Pixel => Seq::<NormalizedLayer>::empty(),
    };
    if layer.kind == NormalizedLayerKind::Group {
        assert(decreases_to!(layer => layer.children));
        lemma_trees_carry(layer.children@, Some(at as usize), at + 1);
    }
    assert forall|i: int| 0 <= i < tree_flat(layer).len() implies carries(#[trigger] tree_views(layer, parent, at)[i], tree_flat(layer)[i]) by {
        if i > 0 {
            assert(tree_views(layer, parent, at)[i] == rest_views[i - 1]);
            assert(tree_flat(layer)[i] == rest_flat[i - 1]);
        }
    }
}

proof fn lemma_trees_carry(layers: Seq<NormalizedLayer>, parent: Option<usize>, at: int)
    ensures
        trees_views(layers, parent, at).len() == trees_flat(layers).len(),
        forall|i: int| 0 <= i < trees_flat(layers).len() ==> carries(#[trigger] trees_views(layers, parent, at)[i], trees_flat(layers)[i]),
    decreases layers,
{
    if layers.len() > 0 {
        let rest = layers.subrange(1, layers.len() as int);
        lemma_tree_carries(layers[0], parent, at);
        lemma_trees_carry(rest, parent, at + tree_size(layers[0]));
        let a = tree_views(layers[0], parent, at);
        let fa = tree_flat(layers[0]);
        let b = trees_views(rest, parent, at + tree_size(layers[0]));
        let fb = trees_flat(rest);
        assert forall|i: int| 0 <= i < trees_flat(layers).len() implies carries(#[trigger] trees_views(layers, parent, at)[i], trees_flat(layers)[i]) by {
            if i < a.len() {
                assert(trees_views(layers, parent, at)[i] == a[i]);
                assert(trees_flat(layers)[i] == fa[i]);
            } else {
                assert(trees_views(layers, parent, at)[i] == b[i - a.len()]);
                assert(trees_flat(layers)[i] == fb[i - fa.len()]);
            }
        }
    }
}

/// Layer for layer, the `i`th file layer written for a document is its `i`th source layer in
/// tree order (a pixel layer's children left out), with that layer's name, group kind,
/// opacity (full when undeclared), blend mode (normal for a name Aseprite lacks) and
/// visibility (shown when enabled in some frame).
pub proof fn lemma_written_layers_carry_sources(roots: Seq<NormalizedLayer>, i: int)
    requires
        0 <= i < trees_flat(roots).len(),
    ensures
        trees_views(roots, None, 0).len() == trees_flat(roots).len(),
        ({
            let view = trees_views(roots, None, 0)[i];
            let source = trees_flat(roots)[i];
            &&& view.0 == source.name@
            &&& view.1 == (source.kind == NormalizedLayerKind::Group)
            &&& view.3 == match source.opacity { Some(value) => value, None => 255u8 }
            &&& view.4 == match source.blend_mode {
                Some(name) => match blend_of(name@) { Some(mapped) => mapped, None => AseBlend::Normal },
                None => AseBlend::Normal,
            }
            &&& view.5 == exists|f: int| 0 <= f < source.frame_enabled@.len() && source.frame_enabled@[f]
        }),
{
    lemma_trees_carry(roots, None, 0);
    assert(carries(trees_views(roots, None, 0)[i], trees_flat(roots)[i]));
}

/// Each file layer bound to a source pixel layer carries that layer's opacity (full when
/// undeclared), blend mode (normal for a name Aseprite lacks) and visibility.
pub proof fn lemma_bound_layers_carry_sources<'a>(bindings: Seq<PixelBinding<'a>>, layers: Seq<AseLayerView>, b: int)
    requires
        pixel_bindings_wf(bindings, layers),
        forall|c: int| 0 <= c < bindings.len() ==> binding_styled(#[trigger] bindings[c], layers),
        0 <= b < bindings.len(),
    ensures
        ({
            let view = layers[bindings[b].layer.index_in_file() as int];
            let source = *bindings[b].source;
            &&& view.0 == source.name@
            &&& !view.1
            &&& view.3 == match source.opacity { Some(value) => value, None => 255u8 }
            &&& view.4 == match source.blend_mode {
                Some(name) => match blend_of(name@) { Some(mapped) => mapped, None => AseBlend::Normal },
                None => AseBlend::Normal,
            }
            &&& view.5 == exists|f: int| 0 <= f < source.frame_enabled@.len() && source.frame_enabled@[f]
        }),
{
    assert(binding_styled(bindings[b], layers));
}

} // verus!
