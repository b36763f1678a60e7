//! The automatic logical-layer plan: association of every frame, the stable track order,
//! persistent parent groups, the output tree, its diagnostics and per-frame z-order.
use vstd::prelude::*;

use super::diagnostics::{
    collect_exclusion_diagnostics, collect_family_diagnostics, collect_name_diagnostics, exclusion_notes,
    family_notes, name_notes,
};
use super::families::{decision_placed, decisions_placed, frames_wf as frames_indexed, ids_unique};
use super::group_paths::{bytes_before, choose_group_paths, chosen_group_path, flatten_redundant_common_root, text_before, text_precedes, wraps_everything};
use super::plan::{
    anchor_before, anchor_track_order, associate_frames, cels_decided, cels_shaped, decided, decision_observed, decisions_distinct, frame_distinct,
    frame_placed, frames_associated, holds_cel, lemma_anchor_before_total,
};
use super::association::{name_key_count, tracks_wf};
use super::families::instances_counted;
use super::scoring::texts;
use super::selectors::{find_frame_selector_groups, info_views, selector_entries, upsert_all};
use super::write_plan::{
    build_nodes, built, forest_size, forest_tracks, lemma_built_tracks, lemma_planned_shapes, planned_shape, planned_shapes,
    unkeyed_all, LayerWritePlan, PlanShape, PlannedNode,
};
use super::z_order::{assign_z_indices, adjusted_cel, changed_tracks, fits_z_index, plan_changes, range_text, same_but_z, shift_text};
use super::{
    anchor_base, frames_wf, lemma_stable_order_permutes, note_text, observation_wf, reviewed_support, stable_order, stable_track_order, track_ids,
    AssociationDecision, FrameContainerInfo, OrderNote,
    AssociationReport, GroupSegment, LayerZOrderMode, LogicalLayerTrack, Observation, PlannedCel, StableOrderMode,
    TrackBuilder,
};
use crate::model::{collect_pixel_layer_ids, pixel_ids_in, visible_pixel_ids_in, NormalizedDocument};
use crate::text::decimal;

verus! {

proof fn lemma_bytes_before_asymmetric(a: Seq<u8>, b: Seq<u8>)
    ensures
        bytes_before(a, b) ==> !bytes_before(b, a),
    decreases a.len(),
{
    if a.len() > 0 && b.len() > 0 && a[0] == b[0] {
        lemma_bytes_before_asymmetric(a.drop_first(), b.drop_first());
    }
}

proof fn lemma_bytes_before_transitive(a: Seq<u8>, b: Seq<u8>, c: Seq<u8>)
    ensures
        bytes_before(a, b) && bytes_before(b, c) ==> bytes_before(a, c),
    decreases a.len(),
{
    if a.len() > 0 && b.len() > 0 && c.len() > 0 && a[0] == b[0] && b[0] == c[0] {
        lemma_bytes_before_transitive(a.drop_first(), b.drop_first(), c.drop_first());
    }
}

/// Whether one decision sorts strictly before another: by frame, then source path in text
/// order, then source layer.
pub open spec fn decision_before(a: AssociationDecision, b: AssociationDecision) -> bool {
    a.frame_index < b.frame_index || (a.frame_index == b.frame_index && (text_before(a.source_path@, b.source_path@)
        || (a.source_path@ == b.source_path@ && a.source_layer_id < b.source_layer_id)))
}

proof fn lemma_decision_before_order(a: AssociationDecision, b: AssociationDecision, c: AssociationDecision)
    ensures
        decision_before(a, b) ==> !decision_before(b, a),
        decision_before(a, b) && decision_before(b, c) ==> decision_before(a, c),
{
    let ea = vstd::utf8::encode_utf8(a.source_path@);
    let eb = vstd::utf8::encode_utf8(b.source_path@);
    let ec = vstd::utf8::encode_utf8(c.source_path@);
    lemma_bytes_before_asymmetric(ea, eb);
    lemma_bytes_before_asymmetric(eb, ea);
    lemma_bytes_before_transitive(ea, eb, ec);
    lemma_bytes_before_asymmetric(ea, ea);
}

/// Whether a list of decisions is sorted: no decision sorts before an earlier one.
pub open spec fn decisions_sorted(decisions: Seq<AssociationDecision>) -> bool {
    forall|i: int, j: int| 0 <= i < j < decisions.len() ==> !decision_before(#[trigger] decisions[j], #[trigger] decisions[i])
}

fn decision_precedes(a: &AssociationDecision, b: &AssociationDecision) -> (before: bool)
    ensures
        before == decision_before(*a, *b),
{
    if a.frame_index != b.frame_index {
        return a.frame_index < b.frame_index;
    }
    if a.source_path != b.source_path {
        return text_precedes(&a.source_path, &b.source_path);
    }
    proof {
        let e = vstd::utf8::encode_utf8(a.source_path@);
        lemma_bytes_before_asymmetric(e, e);
    }
    a.source_layer_id < b.source_layer_id
}

/// Sorts decisions by frame, source path and source layer, keeping the given order among
/// equal keys.
pub fn sort_decisions(decisions: Vec<AssociationDecision>) -> (sorted: Vec<AssociationDecision>)
    ensures
        sorted@.to_multiset() == decisions@.to_multiset(),
        decisions_sorted(sorted@),
{
    broadcast use vstd::seq_lib::group_to_multiset_ensures;

    let mut sorted: Vec<AssociationDecision> = Vec::new();
    let mut rest = decisions;
    let ghost all = rest@;
    assert(all.len() == rest.len());
    let mut taken: usize = 0;
    assert(all.take(0) =~= Seq::<AssociationDecision>::empty());
    while rest.len() > 0
        invariant
            taken <= all.len(),
            taken + rest@.len() == all.len(),
            all.len() <= usize::MAX,
            rest@ == all.skip(taken as int),
            sorted@.to_multiset() == all.take(taken as int).to_multiset(),
            decisions_sorted(sorted@),
        decreases rest@.len(),
    {
        let ghost rest_before = rest@;
        let x = rest.remove(0);
        assert(x == all[taken as int]) by {
            assert(rest_before[0] == all[taken as int]);
        }
        let ghost before = sorted@;
        let mut p: usize = 0;
        while p < sorted.len() && !decision_precedes(&x, &sorted[p])
            invariant
                p <= sorted@.len(),
                sorted@ == before,
                forall|q: int| 0 <= q < p ==> !decision_before(x, #[trigger] before[q]),
            decreases sorted@.len() - p,
        {
            p = p + 1;
        }
        proof {
            assert(all.take(taken as int + 1) =~= all.take(taken as int).push(x));
            vstd::seq_lib::to_multiset_insert(before, p as int, x);
        }
        let ghost xv = x;
        sorted.insert(p, x);
        proof {
            assert(sorted@ =~= before.insert(p as int, xv));
            vstd::seq_lib::to_multiset_build(all.take(taken as int), xv);
            assert(sorted@.to_multiset() == all.take(taken as int + 1).to_multiset());
            assert forall|i: int, j: int| 0 <= i < j < sorted@.len() implies !decision_before(#[trigger] sorted@[j], #[trigger] sorted@[i]) by {
                if i < p && j < p {
                    assert(sorted@[i] == before[i] && sorted@[j] == before[j]);
                } else if i < p && j == p {
                    assert(sorted@[i] == before[i]);
                } else if i < p && j > p {
                    assert(sorted@[i] == before[i] && sorted@[j] == before[j - 1]);
                } else if i == p {
                    assert(sorted@[j] == before[j - 1]);
                    assert(decision_before(xv, before[p as int]));
                    if j - 1 > p {
                        assert(!decision_before(before[j - 1], before[p as int]));
                    }
                    lemma_decision_before_order(before[j - 1], xv, before[p as int]);
                } else {
                    assert(sorted@[i] == before[i - 1] && sorted@[j] == before[j - 1]);
                }
            }
            assert(rest@ =~= all.skip(taken as int + 1));
        }
        taken = taken + 1;
    }
    proof {
        assert(all.skip(taken as int).len() == 0);
        assert(all.take(taken as int) =~= all);
    }
    sorted
}

/// Whether the observations of every frame are in source order.
pub open spec fn in_source_order(frames: Seq<Vec<Observation>>) -> bool {
    forall|f: int, i: int, j: int| 0 <= f < frames.len() && 0 <= i < j < frames[f]@.len()
        ==> (#[trigger] frames[f]@[i]).source_order <= (#[trigger] frames[f]@[j]).source_order
}

/// The number of observations of all frames.
pub open spec fn observation_total(frames: Seq<Vec<Observation>>) -> nat
    decreases frames.len(),
{
    if frames.len() == 0 {
        0
    } else {
        observation_total(frames.drop_last()) + frames.last()@.len()
    }
}

proof fn lemma_total_prefix(frames: Seq<Vec<Observation>>, k: int)
    requires
        0 <= k <= frames.len(),
    ensures
        observation_total(frames.take(k)) <= observation_total(frames),
    decreases frames.len() - k,
{
    if k < frames.len() {
        lemma_total_prefix(frames, k + 1);
        assert(frames.take(k + 1).drop_last() =~= frames.take(k));
    } else {
        assert(frames.take(k) =~= frames);
    }
}

proof fn lemma_observed_renumbered(after: Seq<Vec<Observation>>, before: Seq<Vec<Observation>>, id: u32)
    requires
        frames_renumbered(after, before),
    ensures
        observed(after, id) == observed(before, id),
{
    if observed(after, id) {
        let (f, i) = choose|f: int, i: int| 0 <= f < after.len() && 0 <= i < after[f]@.len() && (#[trigger] after[f]@[i]).source_layer_id == id;
        assert(after[f]@[i] == renumbered(before[f]@[i], i));
        assert(before[f]@[i].source_layer_id == id);
    }
    if observed(before, id) {
        let (f, i) = choose|f: int, i: int| 0 <= f < before.len() && 0 <= i < before[f]@.len() && (#[trigger] before[f]@[i]).source_layer_id == id;
        assert(after[f]@[i] == renumbered(before[f]@[i], i));
    }
}

/// An observation renumbered to position `i` of its frame.
pub open spec fn renumbered(o: Observation, i: int) -> Observation {
    Observation { source_order: i as usize, ..o }
}

/// Renumbering keeps how many observations of a frame share a name family.
proof fn lemma_count_renumbered(a: Seq<Observation>, b: Seq<Observation>, key: Seq<char>, n: int)
    requires
        a.len() == b.len(),
        0 <= n <= a.len(),
        forall|x: int| 0 <= x < a.len() ==> (#[trigger] a[x]).name_key@ == b[x].name_key@,
    ensures
        name_key_count(a, key, n) == name_key_count(b, key, n),
    decreases n,
{
    if n > 0 {
        lemma_count_renumbered(a, b, key, n - 1);
        assert(a[n - 1].name_key@ == b[n - 1].name_key@);
    }
}

/// Whether `after` holds the frames of `before` with every observation renumbered to its
/// position.
pub open spec fn frames_renumbered(after: Seq<Vec<Observation>>, before: Seq<Vec<Observation>>) -> bool {
    &&& after.len() == before.len()
    &&& forall|f: int| 0 <= f < after.len() ==> (#[trigger] after[f])@.len() == before[f]@.len()
    &&& forall|f: int, i: int| 0 <= f < after.len() && 0 <= i < after[f]@.len() ==> (#[trigger] after[f]@[i]) == renumbered(before[f]@[i], i)
}

/// Renumbers the observations of each frame to their positions.
fn renumber_frames(frames: Vec<Vec<Observation>>) -> (renumbered_frames: Vec<Vec<Observation>>)
    ensures
        frames_renumbered(renumbered_frames@, frames@),
{
    let ghost all = frames@;
    let mut rest = frames;
    let mut out: Vec<Vec<Observation>> = Vec::new();
    while rest.len() > 0
        invariant
            out@.len() + rest@.len() == all.len(),
            rest@ == all.skip(out@.len() as int),
            forall|f: int| 0 <= f < out@.len() ==> (#[trigger] out@[f])@.len() == all[f]@.len(),
            forall|f: int, i: int| 0 <= f < out@.len() && 0 <= i < out@[f]@.len() ==> (#[trigger] out@[f]@[i]) == renumbered(all[f]@[i], i),
        decreases rest@.len(),
    {
        let ghost f = out@.len() as int;
        let ghost rest_before = rest@;
        let mut frame = rest.remove(0);
        assert(frame == all[f]) by {
            assert(rest_before[0] == all[f]);
        }
        assert(rest@ =~= all.skip(f + 1));
        let ghost source = frame@;
        assert(source.len() == frame.len());
        let mut fresh: Vec<Observation> = Vec::new();
        let mut i: usize = 0;
        while frame.len() > 0
            invariant
                i + frame@.len() == source.len(),
                source.len() <= usize::MAX,
                frame@ == source.skip(i as int),
                fresh@.len() == i,
                forall|k: int| 0 <= k < i ==> (#[trigger] fresh@[k]) == renumbered(source[k], k),
            decreases frame@.len(),
        {
            let ghost frame_before = frame@;
            let mut o = frame.remove(0);
            assert(o == source[i as int]) by {
                assert(frame_before[0] == source[i as int]);
            }
            assert(frame@ =~= source.skip(i as int + 1));
            o.source_order = i;
            fresh.push(o);
            i = i + 1;
        }
        out.push(fresh);
    }
    out
}

/// Whether some track holds, in frame `f`, a cel of source layer `id` from that frame.
pub open spec fn plan_holds(tracks: Seq<LogicalLayerTrack>, f: int, id: u32) -> bool {
    exists|t: int| 0 <= t < tracks.len() && (#[trigger] tracks[t].cels@[f]) is Some
        && tracks[t].cels@[f]->0.source_layer_id == id && tracks[t].cels@[f]->0.source_frame_index == f as u32
}

/// Whether every observation of every frame has its cel on a track.
pub open spec fn plan_places(frames: Seq<Vec<Observation>>, tracks: Seq<LogicalLayerTrack>) -> bool {
    forall|f: int, i: int| 0 <= f < frames.len() && 0 <= i < frames[f]@.len() ==> plan_holds(tracks, f, (#[trigger] frames[f]@[i]).source_layer_id)
}

/// Whether no two tracks hold, in one frame, cels of the same source layer.
pub open spec fn plan_distinct(tracks: Seq<LogicalLayerTrack>, frame_count: int) -> bool {
    forall|f: int, a: int, b: int| 0 <= f < frame_count && 0 <= a < tracks.len() && 0 <= b < tracks.len() && a != b
        && (#[trigger] tracks[a].cels@[f]) is Some && (#[trigger] tracks[b].cels@[f]) is Some
        ==> tracks[a].cels@[f]->0.source_layer_id != tracks[b].cels@[f]->0.source_layer_id
}

/// Whether a source layer is observed in some frame.
pub open spec fn observed(frames: Seq<Vec<Observation>>, id: u32) -> bool {
    exists|f: int, i: int| 0 <= f < frames.len() && 0 <= i < frames[f]@.len() && (#[trigger] frames[f]@[i]).source_layer_id == id
}

/// The IDs that no frame observes, in order.
pub open spec fn unobserved(ids: Seq<u32>, frames: Seq<Vec<Observation>>) -> Seq<u32>
    decreases ids.len(),
{
    if ids.len() == 0 {
        Seq::empty()
    } else {
        let rest = unobserved(ids.drop_last(), frames);
        if observed(frames, ids.last()) { rest } else { rest.push(ids.last()) }
    }
}

/// The warning about pixel layers that no frame shows.
pub open spec fn omitted_text(count: int) -> Seq<char> {
    decimal(count) + " source pixel layers were never effectively visible and were omitted from auto association"@
}

/// The error for a document without a visible pixel layer.
pub open spec fn nothing_visible_text() -> Seq<char> {
    "automatic layer association found no effective visible pixel layers"@
}

/// The error of a plan with more tracks than its flat indices can number.
pub open spec fn track_limit_text() -> Seq<char> {
    "automatic layer association produced more logical tracks than a plan can number"@
}

/// The error of a plan whose layer tree is larger than its flat indices can number.
pub open spec fn tree_limit_text() -> Seq<char> {
    "automatic layer association produced a layer tree larger than a plan can number"@
}

/// Whether a text is the report of an unresolved order pair in strict stable ordering.
pub open spec fn order_note_message(m: Seq<char>) -> bool {
    exists|note: OrderNote, tracks: Seq<TrackBuilder>| m == #[trigger] note_text(note, tracks)
}

/// Whether a text is the report of a Z-Index shift outside the 16-bit range.
pub open spec fn z_range_message(m: Seq<char>) -> bool {
    exists|change: (usize, usize, int)| !fits_z_index(change.2) && m == #[trigger] range_text(change)
}

/// The errors the planner may give, by the inputs they belong to: no observation at all;
/// with observations, an unresolved order pair, only in strict stable ordering; a Z-Index
/// shift outside the 16-bit range; or a plan too large to number.
pub open spec fn plan_error(observations: Seq<Vec<Observation>>, z_order_mode: LayerZOrderMode, stable_order_mode: StableOrderMode, m: Seq<char>) -> bool {
    ||| observation_total(observations) == 0 && m == nothing_visible_text()
    ||| observation_total(observations) > 0 && {
        ||| z_order_mode == LayerZOrderMode::Stable && stable_order_mode == StableOrderMode::Strict && order_note_message(m)
        ||| z_range_message(m)
        ||| m == track_limit_text()
        ||| m == tree_limit_text()
    }
}

fn is_observed(frames: &Vec<Vec<Observation>>, id: u32) -> (found: bool)
    ensures
        found == observed(frames@, id),
{
    let mut f: usize = 0;
    while f < frames.len()
        invariant
            f <= frames@.len(),
            forall|g: int, i: int| 0 <= g < f && 0 <= i < frames@[g]@.len() ==> (#[trigger] frames@[g]@[i]).source_layer_id != id,
        decreases frames@.len() - f,
    {
        let mut i: usize = 0;
        while i < frames[f].len()
            invariant
                f < frames@.len(),
                i <= frames@[f as int]@.len(),
                forall|g: int, k: int| 0 <= g < f && 0 <= k < frames@[g]@.len() ==> (#[trigger] frames@[g]@[k]).source_layer_id != id,
                forall|k: int| 0 <= k < i ==> (#[trigger] frames@[f as int]@[k]).source_layer_id != id,
            decreases frames@[f as int]@.len() - i,
        {
            if frames[f][i].source_layer_id == id {
                return true;
            }
            i = i + 1;
        }
        f = f + 1;
    }
    false
}

/// Sorts IDs ascending.
fn sort_ids(ids: Vec<u32>) -> (sorted: Vec<u32>)
    ensures
        sorted@.to_multiset() == ids@.to_multiset(),
        forall|i: int, j: int| 0 <= i < j < sorted@.len() ==> #[trigger] sorted@[i] <= #[trigger] sorted@[j],
{
    broadcast use vstd::seq_lib::group_to_multiset_ensures;

    let mut sorted: Vec<u32> = Vec::new();
    let mut i: usize = 0;
    assert(ids@.take(0) =~= Seq::<u32>::empty());
    while i < ids.len()
        invariant
            i <= ids@.len(),
            sorted@.to_multiset() == ids@.take(i as int).to_multiset(),
            forall|a: int, b: int| 0 <= a < b < sorted@.len() ==> #[trigger] sorted@[a] <= #[trigger] sorted@[b],
        decreases ids@.len() - i,
    {
        let x = ids[i];
        let mut p: usize = 0;
        while p < sorted.len() && sorted[p] <= x
            invariant
                p <= sorted@.len(),
                forall|q: int| 0 <= q < p ==> #[trigger] sorted@[q] <= x,
            decreases sorted@.len() - p,
        {
            p = p + 1;
        }
        let ghost before = sorted@;
        sorted.insert(p, x);
        proof {
            vstd::seq_lib::to_multiset_insert(before, p as int, x);
            assert(ids@.take(i as int + 1) =~= ids@.take(i as int).push(x));
            vstd::seq_lib::to_multiset_build(ids@.take(i as int), x);
            assert forall|a: int, b: int| 0 <= a < b < sorted@.len() implies #[trigger] sorted@[a] <= #[trigger] sorted@[b] by {
                if a < p && b < p {
                    assert(sorted@[a] == before[a] && sorted@[b] == before[b]);
                } else if a < p && b == p {
                    assert(sorted@[a] == before[a]);
                } else if a < p {
                    assert(sorted@[a] == before[a] && sorted@[b] == before[b - 1]);
                } else if a == p {
                    assert(sorted@[b] == before[b - 1]);
                    assert(before[p as int] > x);
                    if b - 1 > p {
                        assert(before[p as int] <= before[b - 1]);
                    }
                } else {
                    assert(sorted@[a] == before[a - 1] && sorted@[b] == before[b - 1]);
                }
            }
        }
        i = i + 1;
    }
    assert(ids@.take(ids@.len() as int) =~= ids@);
    sorted
}

#[verifier::external_body]
fn omitted_warning(count: usize) -> (message: String)
    ensures
        message@ == omitted_text(count as int),
{
    format!("{} source pixel layers were never effectively visible and were omitted from auto association", count)
}

fn copy_cels(source: &Vec<Option<PlannedCel>>) -> (copy: Vec<Option<PlannedCel>>)
    ensures
        copy@ == source@,
{
    let mut copy: Vec<Option<PlannedCel>> = Vec::new();
    let mut i: usize = 0;
    while i < source.len()
        invariant
            i <= source@.len(),
            copy@ == source@.take(i as int),
        decreases source@.len() - i,
    {
        copy.push(source[i]);
        assert(source@.take(i as int + 1) =~= source@.take(i as int).push(source@[i as int]));
        i = i + 1;
    }
    assert(source@.take(source@.len() as int) =~= source@);
    copy
}

fn segment_names(path: &Vec<GroupSegment>) -> (names: Vec<String>)
    ensures
        names@.len() == path@.len(),
        forall|i: int| 0 <= i < path@.len() ==> (#[trigger] names@[i])@ == path@[i].name@,
{
    let mut names: Vec<String> = Vec::new();
    let mut i: usize = 0;
    while i < path.len()
        invariant
            i <= path@.len(),
            names@.len() == i,
            forall|k: int| 0 <= k < i ==> (#[trigger] names@[k])@ == path@[k].name@,
        decreases path@.len() - i,
    {
        names.push(path[i].name.clone());
        i = i + 1;
    }
    names
}

/// The number of nodes of a tree, if it is at most `limit`.
fn node_count_within(nodes: &Vec<PlannedNode>, limit: u64) -> (count: Option<u64>)
    ensures
        match count {
            Some(c) => c == forest_size(planned_shapes(nodes@)) && c <= limit,
            None => forest_size(planned_shapes(nodes@)) > limit,
        },
    decreases nodes@,
{
    proof {
        lemma_planned_shapes(nodes@);
    }
    let ghost shapes = planned_shapes(nodes@);
    let mut used: u64 = 0;
    let mut i: usize = 0;
    assert(shapes.subrange(0, shapes.len() as int) =~= shapes);
    while i < nodes.len()
        invariant
            i <= nodes@.len(),
            shapes == planned_shapes(nodes@),
            shapes.len() == nodes@.len(),
            forall|q: int| 0 <= q < nodes@.len() ==> #[trigger] shapes[q] == planned_shape(nodes@[q]),
            used <= limit,
            used + forest_size(shapes.subrange(i as int, shapes.len() as int)) == forest_size(shapes),
        decreases nodes@.len() - i,
    {
        let ghost tail = shapes.subrange(i as int, shapes.len() as int);
        proof {
            assert(tail[0] == shapes[i as int]);
            assert(tail.subrange(1, tail.len() as int) =~= shapes.subrange(i as int + 1, shapes.len() as int));
            assert(forest_size(tail) == super::write_plan::node_size(shapes[i as int]) + forest_size(shapes.subrange(i as int + 1, shapes.len() as int)));
            assert(super::write_plan::node_size(shapes[i as int]) >= 1);
        }
        if used == limit {
            return None;
        }
        match &nodes[i] {
            PlannedNode::Group { children, .. } => {
                proof {
                    assert(decreases_to!(nodes@ => nodes@[i as int]));
                }
                match node_count_within(children, limit - used - 1) {
                    Some(inner) => {
                        used = used + inner + 1;
                    },
                    None => {
                        return None;
                    },
                }
            },
            PlannedNode::Track { .. } => {
                used = used + 1;
            },
        }
        i = i + 1;
    }
    assert(shapes.subrange(nodes@.len() as int, shapes.len() as int) =~= Seq::<PlanShape>::empty());
    Some(used)
}

proof fn lemma_adjusted_keeps_source(changes: Seq<(usize, usize, int)>, p: int, g: int, cel: Option<PlannedCel>, auto: bool)
    ensures
        adjusted_cel(changes, p, g, cel, auto) is Some <==> cel is Some,
        cel is Some ==> adjusted_cel(changes, p, g, cel, auto)->0.source_layer_id == cel->0.source_layer_id
            && adjusted_cel(changes, p, g, cel, auto)->0.source_frame_index == cel->0.source_frame_index,
{
}

/// Whether an order lists exactly the tracks `0..count`, each once.
pub open spec fn orders_tracks(order: Seq<usize>, count: nat) -> bool {
    order.to_multiset() == track_ids(count).to_multiset()
}

proof fn lemma_order_bounded(order: Seq<usize>, count: nat)
    requires
        orders_tracks(order, count),
    ensures
        forall|i: int| 0 <= i < order.len() ==> #[trigger] order[i] < count,
{
    broadcast use vstd::seq_lib::group_to_multiset_ensures;

    assert forall|i: int| 0 <= i < order.len() implies #[trigger] order[i] < count by {
        assert(order.contains(order[i]));
        assert(track_ids(count).to_multiset().count(order[i]) > 0);
        assert(track_ids(count).contains(order[i]));
    }
}

fn frame_total(frames: &Vec<Vec<Observation>>, Ghost(input): Ghost<Seq<Vec<Observation>>>) -> (count: usize)
    requires
        frames_renumbered(frames@, input),
        observation_total(input) <= usize::MAX,
    ensures
        count == observation_total(input),
{
    let mut count: usize = 0;
    let mut f: usize = 0;
    assert(input.take(0) =~= Seq::<Vec<Observation>>::empty());
    while f < frames.len()
        invariant
            f <= frames@.len(),
            frames_renumbered(frames@, input),
            observation_total(input) <= usize::MAX,
            count == observation_total(input.take(f as int)),
        decreases frames@.len() - f,
    {
        assert(input.take(f as int + 1).drop_last() =~= input.take(f as int));
        assert(input.take(f as int + 1).last() == input[f as int]);
        proof {
            lemma_total_prefix(input, f as int + 1);
        }
        count = count + frames[f].len();
        f = f + 1;
    }
    assert(input.take(input.len() as int) =~= input);
    count
}

fn omitted_ids(document: &NormalizedDocument, frames: &Vec<Vec<Observation>>, Ghost(input): Ghost<Seq<Vec<Observation>>>) -> (omitted: Vec<u32>)
    requires
        frames_renumbered(frames@, input),
    ensures
        omitted@.to_multiset() == unobserved(pixel_ids_in(document.root_layers@), input).to_multiset(),
        forall|i: int, j: int| 0 <= i < j < omitted@.len() ==> #[trigger] omitted@[i] <= #[trigger] omitted@[j],
{
    let mut pixel_ids: Vec<u32> = Vec::new();
    collect_pixel_layer_ids(&document.root_layers, &mut pixel_ids);
    assert(pixel_ids@ =~= pixel_ids_in(document.root_layers@));
    let mut unseen: Vec<u32> = Vec::new();
    let mut k: usize = 0;
    assert(pixel_ids@.take(0) =~= Seq::<u32>::empty());
    while k < pixel_ids.len()
        invariant
            k <= pixel_ids@.len(),
            frames_renumbered(frames@, input),
            unseen@ == unobserved(pixel_ids@.take(k as int), input),
        decreases pixel_ids@.len() - k,
    {
        assert(pixel_ids@.take(k as int + 1).drop_last() =~= pixel_ids@.take(k as int));
        assert(pixel_ids@.take(k as int + 1).last() == pixel_ids@[k as int]);
        let seen = is_observed(frames, pixel_ids[k]);
        proof {
            lemma_observed_renumbered(frames@, input, pixel_ids@[k as int]);
        }
        if !seen {
            unseen.push(pixel_ids[k]);
        }
        k = k + 1;
    }
    assert(pixel_ids@.take(pixel_ids@.len() as int) =~= pixel_ids@);
    sort_ids(unseen)
}

fn logical_tracks(tracks: &Vec<TrackBuilder>, group_paths: &Vec<Vec<GroupSegment>>) -> (plan_tracks: Vec<LogicalLayerTrack>)
    requires
        group_paths@.len() == tracks@.len(),
    ensures
        plan_tracks@.len() == tracks@.len(),
        forall|q: int| 0 <= q < tracks@.len() ==> (#[trigger] plan_tracks@[q]).id == tracks@[q].id && plan_tracks@[q].cels@ == tracks@[q].cels@,
{
    let mut plan_tracks: Vec<LogicalLayerTrack> = Vec::new();
    let mut t: usize = 0;
    while t < tracks.len()
        invariant
            t <= tracks@.len(),
            group_paths@.len() == tracks@.len(),
            plan_tracks@.len() == t,
            forall|q: int| 0 <= q < t ==> (#[trigger] plan_tracks@[q]).id == tracks@[q].id && plan_tracks@[q].cels@ == tracks@[q].cels@,
        decreases tracks@.len() - t,
    {
        let track = &tracks[t];
        plan_tracks.push(LogicalLayerTrack {
            id: track.id,
            name: track.name.clone(),
            representative_source_layer_id: track.representative_source_layer_id,
            group_path: segment_names(&group_paths[t]),
            cels: copy_cels(&track.cels),
        });
        t = t + 1;
    }
    plan_tracks
}

proof fn lemma_final_tracks(
    frames: Seq<Vec<Observation>>,
    input: Seq<Vec<Observation>>,
    builders: Seq<TrackBuilder>,
    before: Seq<LogicalLayerTrack>,
    after: Seq<LogicalLayerTrack>,
    changes: Seq<(usize, usize, int)>,
    auto: bool,
    n: usize,
)
    requires
        frames_renumbered(frames, input),
        frames.len() == n,
        tracks_wf(builders, n),
        forall|g: int| 0 <= g < frames.len() ==> #[trigger] frame_placed(frames, builders, g),
        forall|g: int| 0 <= g < frames.len() ==> #[trigger] frame_distinct(builders, g),
        before.len() == builders.len(),
        forall|q: int| 0 <= q < builders.len() ==> (#[trigger] before[q]).id == builders[q].id && before[q].cels@ == builders[q].cels@,
        changed_tracks(after, before, changes, auto),
        cels_shaped(builders, n as int),
    ensures
        forall|q: int| 0 <= q < after.len() ==> (#[trigger] after[q]).id == q && after[q].cels@.len() == n,
        plan_places(input, after),
        plan_distinct(after, n as int),
        cels_recorded(after, n as int, !auto),
{
    assert forall|t: int, g: int| 0 <= t < after.len() && 0 <= g < n && (#[trigger] after[t].cels@[g]) is Some
        implies after[t].cels@[g]->0.source_frame_index == g as u32 && (!auto ==> after[t].cels@[g]->0.z_index == 0) by {
        assert(builders[t].cels@.len() == n);
        lemma_adjusted_keeps_source(changes, t, g, before[t].cels@[g], auto);
        assert(after[t].cels@[g] == adjusted_cel(changes, t, g, before[t].cels@[g], auto));
        assert(before[t].cels@[g] == builders[t].cels@[g]);
    }
    assert forall|q: int| 0 <= q < after.len() implies (#[trigger] after[q]).id == q && after[q].cels@.len() == n by {
        assert(same_but_z(after[q], before[q]));
        assert(builders[q].id == q);
    }
    assert forall|g: int, i: int| 0 <= g < input.len() && 0 <= i < input[g]@.len() implies plan_holds(after, g, (#[trigger] input[g]@[i]).source_layer_id) by {
        assert(frame_placed(frames, builders, g));
        assert(frames[g]@[i] == renumbered(input[g]@[i], i));
        assert(holds_cel(builders, g, frames[g]@[i].source_layer_id));
        let w = choose|w: int| 0 <= w < builders.len()
            && #[trigger] builders[w].cels@[g] == Some(PlannedCel { source_layer_id: frames[g]@[i].source_layer_id, source_frame_index: g as u32, z_index: 0 });
        lemma_adjusted_keeps_source(changes, w, g, before[w].cels@[g], auto);
        assert(builders[w].cels@.len() == n);
        assert(after[w].cels@[g] == adjusted_cel(changes, w, g, before[w].cels@[g], auto));
    }
    assert forall|g: int, a: int, b: int| 0 <= g < n && 0 <= a < after.len() && 0 <= b < after.len() && a != b
        && (#[trigger] after[a].cels@[g]) is Some && (#[trigger] after[b].cels@[g]) is Some
        implies after[a].cels@[g]->0.source_layer_id != after[b].cels@[g]->0.source_layer_id by {
        assert(frame_distinct(builders, g));
        assert(builders[a].cels@.len() == n && builders[b].cels@.len() == n);
        lemma_adjusted_keeps_source(changes, a, g, before[a].cels@[g], auto);
        lemma_adjusted_keeps_source(changes, b, g, before[b].cels@[g], auto);
        assert(after[a].cels@[g] == adjusted_cel(changes, a, g, before[a].cels@[g], auto));
        assert(after[b].cels@[g] == adjusted_cel(changes, b, g, before[b].cels@[g], auto));
    }
}

/// Whether a decision's track holds, in the decision's frame, a cel of the decision's
/// source layer.
pub open spec fn decision_cel(tracks: Seq<LogicalLayerTrack>, d: AssociationDecision) -> bool {
    &&& d.track_id < tracks.len()
    &&& (d.frame_index as int) < tracks[d.track_id as int].cels@.len()
    &&& tracks[d.track_id as int].cels@[d.frame_index as int] matches Some(c) && c.source_layer_id == d.source_layer_id
}

/// The (frame, source layer) pair a decision is for.
pub open spec fn decision_key(d: AssociationDecision) -> (int, u32) {
    (d.frame_index as int, d.source_layer_id)
}

/// The (frame, source layer) pairs of a frame's observations.
pub open spec fn frame_keys(frame: Seq<Observation>, f: int) -> Set<(int, u32)> {
    frame.map_values(|o: Observation| (f, o.source_layer_id)).to_set()
}

/// The (frame, source layer) pairs of all observations.
pub open spec fn observation_keys(frames: Seq<Vec<Observation>>) -> Set<(int, u32)>
    decreases frames.len(),
{
    if frames.len() == 0 {
        Set::empty()
    } else {
        observation_keys(frames.drop_last()) + frame_keys(frames.last()@, frames.len() - 1)
    }
}

proof fn lemma_observation_keys(frames: Seq<Vec<Observation>>)
    requires
        ids_unique(frames),
    ensures
        observation_keys(frames).finite(),
        observation_keys(frames).len() == observation_total(frames),
        forall|k: (int, u32)| #[trigger] observation_keys(frames).contains(k)
            <==> (0 <= k.0 < frames.len() && exists|i: int| 0 <= i < frames[k.0]@.len() && (#[trigger] frames[k.0]@[i]).source_layer_id == k.1),
    decreases frames.len(),
{
    if frames.len() > 0 {
        let rest = frames.drop_last();
        assert(ids_unique(rest)) by {
            assert forall|f: int, a: int, b: int| 0 <= f < rest.len() && 0 <= a < rest[f]@.len() && 0 <= b < rest[f]@.len() && a != b
                implies (#[trigger] rest[f]@[a]).source_layer_id != (#[trigger] rest[f]@[b]).source_layer_id by {
                assert(rest[f] == frames[f]);
            }
        }
        lemma_observation_keys(rest);
        let g = frames.len() - 1;
        let last = frames.last()@;
        let keys = last.map_values(|o: Observation| (g, o.source_layer_id));
        assert(keys.no_duplicates()) by {
            assert forall|i: int, j: int| 0 <= i < keys.len() && 0 <= j < keys.len() && i != j implies keys[i] != keys[j] by {
                assert(frames[g]@ == last);
                assert(last[i].source_layer_id != last[j].source_layer_id);
            }
        }
        keys.unique_seq_to_set();
        let fk = frame_keys(last, g);
        assert(fk == keys.to_set());
        assert forall|k: (int, u32)| #[trigger] fk.contains(k)
            <==> (k.0 == g && exists|i: int| 0 <= i < last.len() && (#[trigger] last[i]).source_layer_id == k.1) by {
            if fk.contains(k) {
                let i = choose|i: int| 0 <= i < keys.len() && keys[i] == k;
                assert(last[i].source_layer_id == k.1);
            }
            if k.0 == g && exists|i: int| 0 <= i < last.len() && (#[trigger] last[i]).source_layer_id == k.1 {
                let i = choose|i: int| 0 <= i < last.len() && (#[trigger] last[i]).source_layer_id == k.1;
                assert(keys[i] == k);
            }
        }
        vstd::set_lib::lemma_set_disjoint_lens(observation_keys(rest), fk);
        assert(observation_keys(rest).disjoint(fk));
        assert forall|k: (int, u32)| #[trigger] observation_keys(frames).contains(k)
            <==> (0 <= k.0 < frames.len() && exists|i: int| 0 <= i < frames[k.0]@.len() && (#[trigger] frames[k.0]@[i]).source_layer_id == k.1) by {
            if 0 <= k.0 < g {
                assert(rest[k.0] == frames[k.0]);
            }
            if k.0 == g {
                assert(frames[k.0]@ == last);
            }
        }
    }
}

/// Decisions for distinct observations, one for each observation, are as many as the
/// observations.
proof fn lemma_decision_count(frames: Seq<Vec<Observation>>, decisions: Seq<AssociationDecision>)
    requires
        ids_unique(frames),
        decisions_distinct(decisions),
        forall|f: int, i: int| 0 <= f < frames.len() && 0 <= i < frames[f]@.len()
            ==> decided(decisions, f, (#[trigger] frames[f]@[i]).source_layer_id),
        forall|q: int| 0 <= q < decisions.len() ==> decision_observed(frames, #[trigger] decisions[q]),
    ensures
        decisions.len() == observation_total(frames),
{
    lemma_observation_keys(frames);
    let keys = decisions.map_values(|d: AssociationDecision| decision_key(d));
    assert(keys.no_duplicates()) by {
        assert forall|i: int, j: int| 0 <= i < keys.len() && 0 <= j < keys.len() && i != j implies keys[i] != keys[j] by {
            if i < j {
                assert(!(decisions[i].frame_index == decisions[j].frame_index && decisions[i].source_layer_id == decisions[j].source_layer_id));
            } else {
                assert(!(decisions[j].frame_index == decisions[i].frame_index && decisions[j].source_layer_id == decisions[i].source_layer_id));
            }
        }
    }
    keys.unique_seq_to_set();
    assert(keys.to_set() =~= observation_keys(frames)) by {
        assert forall|k: (int, u32)| #[trigger] keys.to_set().contains(k) implies observation_keys(frames).contains(k) by {
            let q = choose|q: int| 0 <= q < keys.len() && keys[q] == k;
            assert(decision_observed(frames, decisions[q]));
        }
        assert forall|k: (int, u32)| #[trigger] observation_keys(frames).contains(k) implies keys.to_set().contains(k) by {
            let i = choose|i: int| 0 <= i < frames[k.0]@.len() && (#[trigger] frames[k.0]@[i]).source_layer_id == k.1;
            assert(decided(decisions, k.0, frames[k.0]@[i].source_layer_id));
            let q = choose|q: int| 0 <= q < decisions.len() && (#[trigger] decisions[q]).frame_index == k.0 && decisions[q].source_layer_id == k.1;
            assert(keys[q] == k);
        }
    }
}

/// Reordering keeps decisions for distinct observations distinct.
proof fn lemma_permuted_distinct(before: Seq<AssociationDecision>, after: Seq<AssociationDecision>)
    requires
        before.to_multiset() == after.to_multiset(),
        decisions_distinct(before),
    ensures
        decisions_distinct(after),
{
    broadcast use vstd::seq_lib::group_to_multiset_ensures;
    assert(before.no_duplicates()) by {
        assert forall|i: int, j: int| 0 <= i < before.len() && 0 <= j < before.len() && i != j implies before[i] != before[j] by {
            if i < j {
                assert(!(before[i].frame_index == before[j].frame_index && before[i].source_layer_id == before[j].source_layer_id));
            } else {
                assert(!(before[j].frame_index == before[i].frame_index && before[j].source_layer_id == before[i].source_layer_id));
            }
        }
    }
    before.lemma_multiset_has_no_duplicates();
    after.lemma_multiset_has_no_duplicates_conv();
    assert forall|a: int, b: int| 0 <= a < b < after.len() implies
        !((#[trigger] after[a]).frame_index == (#[trigger] after[b]).frame_index && after[a].source_layer_id == after[b].source_layer_id) by {
        assert(after.to_multiset().count(after[a]) > 0);
        assert(after.to_multiset().count(after[b]) > 0);
        assert(before.contains(after[a]));
        assert(before.contains(after[b]));
        let i = choose|i: int| 0 <= i < before.len() && before[i] == after[a];
        let j = choose|j: int| 0 <= j < before.len() && before[j] == after[b];
        assert(after[a] != after[b]);
        if i < j {
            assert(!(before[i].frame_index == before[j].frame_index && before[i].source_layer_id == before[j].source_layer_id));
        } else if j < i {
            assert(!(before[j].frame_index == before[i].frame_index && before[j].source_layer_id == before[i].source_layer_id));
        }
    }
}

/// Whether every cel of a plan's tracks is named by a decision: for that track, frame and
/// source layer.
pub open spec fn plan_cels_decided(tracks: Seq<LogicalLayerTrack>, decisions: Seq<AssociationDecision>) -> bool {
    forall|t: int, g: int| 0 <= t < tracks.len() && 0 <= g < tracks[t].cels@.len() && (#[trigger] tracks[t].cels@[g]) is Some
        ==> exists|q: int| 0 <= q < decisions.len() && (#[trigger] decisions[q]).track_id == t && decisions[q].frame_index == g
            && decisions[q].source_layer_id == tracks[t].cels@[g]->0.source_layer_id
}

proof fn lemma_plan_cels_decided(
    builders: Seq<TrackBuilder>,
    before: Seq<LogicalLayerTrack>,
    after: Seq<LogicalLayerTrack>,
    changes: Seq<(usize, usize, int)>,
    auto: bool,
    n: usize,
    unsorted: Seq<AssociationDecision>,
    decisions: Seq<AssociationDecision>,
)
    requires
        tracks_wf(builders, n),
        before.len() == builders.len(),
        forall|q: int| 0 <= q < builders.len() ==> (#[trigger] before[q]).id == builders[q].id && before[q].cels@ == builders[q].cels@,
        changed_tracks(after, before, changes, auto),
        cels_decided(builders, unsorted),
        unsorted.to_multiset() == decisions.to_multiset(),
    ensures
        plan_cels_decided(after, decisions),
{
    broadcast use vstd::seq_lib::group_to_multiset_ensures;
    assert forall|t: int, g: int| 0 <= t < after.len() && 0 <= g < after[t].cels@.len() && (#[trigger] after[t].cels@[g]) is Some
        implies exists|q: int| 0 <= q < decisions.len() && (#[trigger] decisions[q]).track_id == t && decisions[q].frame_index == g
            && decisions[q].source_layer_id == after[t].cels@[g]->0.source_layer_id by {
        assert(same_but_z(after[t], before[t]));
        assert(before[t].cels@ == builders[t].cels@);
        lemma_adjusted_keeps_source(changes, t, g, before[t].cels@[g], auto);
        assert(after[t].cels@[g] == adjusted_cel(changes, t, g, before[t].cels@[g], auto));
        assert(builders[t].cels@[g] is Some);
        let w = choose|w: int| 0 <= w < unsorted.len() && (#[trigger] unsorted[w]).track_id == t && unsorted[w].frame_index == g
            && unsorted[w].source_layer_id == builders[t].cels@[g]->0.source_layer_id;
        assert(unsorted.to_multiset().count(unsorted[w]) > 0);
        assert(decisions.contains(unsorted[w]));
        let q = choose|q: int| 0 <= q < decisions.len() && decisions[q] == unsorted[w];
        assert(decisions[q].track_id == t);
    }
}

proof fn lemma_decisions_on_plan(
    builders: Seq<TrackBuilder>,
    before: Seq<LogicalLayerTrack>,
    after: Seq<LogicalLayerTrack>,
    changes: Seq<(usize, usize, int)>,
    auto: bool,
    n: usize,
    decisions: Seq<AssociationDecision>,
)
    requires
        tracks_wf(builders, n),
        before.len() == builders.len(),
        forall|q: int| 0 <= q < builders.len() ==> (#[trigger] before[q]).id == builders[q].id && before[q].cels@ == builders[q].cels@,
        changed_tracks(after, before, changes, auto),
        decisions_placed(builders, decisions),
    ensures
        forall|i: int| 0 <= i < decisions.len() ==> decision_cel(after, #[trigger] decisions[i]),
{
    assert forall|i: int| 0 <= i < decisions.len() implies decision_cel(after, #[trigger] decisions[i]) by {
        let d = decisions[i];
        assert(decision_placed(builders, d));
        let t = d.track_id as int;
        let g = d.frame_index as int;
        assert(before[t].cels@ == builders[t].cels@);
        assert(same_but_z(after[t], before[t]));
        lemma_adjusted_keeps_source(changes, t, g, before[t].cels@[g], auto);
        assert(after[t].cels@[g] == adjusted_cel(changes, t, g, before[t].cels@[g], auto));
    }
}

/// Whether every cel a track holds in frame `g` records source frame `g`, with a zero
/// Z-Index where asked.
pub open spec fn cels_recorded(tracks: Seq<LogicalLayerTrack>, n: int, unshifted: bool) -> bool {
    forall|t: int, g: int| 0 <= t < tracks.len() && 0 <= g < n && (#[trigger] tracks[t].cels@[g]) is Some
        ==> tracks[t].cels@[g]->0.source_frame_index == g as u32 && (unshifted ==> tracks[t].cels@[g]->0.z_index == 0)
}

/// What a built plan holds: its counts and policies; a track per index, with a cel slot per
/// frame, each cel recording its frame; every observation's cel on a track, no source layer
/// twice in one frame; every track once in the output tree; one decision per observation,
/// as many as there are observations, in frame and source order, each naming the cel it
/// placed, every cel named by one, scores and margins bounded, with their diagnostics; and
/// the source pixel layers no frame shows, ascending.
pub open spec fn plan_built(
    document: NormalizedDocument,
    observations: Seq<Vec<Observation>>,
    name_catalog_version: u16,
    z_order_mode: LayerZOrderMode,
    stable_order_mode: StableOrderMode,
    plan: LayerWritePlan,
) -> bool {
    let n = document.frames@.len() as int;
    &&& plan.report.observation_count == observation_total(observations)
    &&& plan.report.track_count == plan.tracks@.len()
    &&& plan.report.z_order_mode == z_order_mode
    &&& plan.report.stable_order_mode == stable_order_mode
    &&& plan.report.name_catalog_version == name_catalog_version
    &&& forall|t: int| 0 <= t < plan.tracks@.len() ==> (#[trigger] plan.tracks@[t]).id == t && plan.tracks@[t].cels@.len() == n
    &&& plan_places(observations, plan.tracks@)
    &&& plan_distinct(plan.tracks@, n)
    &&& cels_recorded(plan.tracks@, n, z_order_mode == LayerZOrderMode::Stable)
    &&& forest_tracks(planned_shapes(plan.root_nodes@)).to_multiset() == track_ids(plan.tracks@.len()).to_multiset()
    &&& decisions_sorted(plan.report.decisions@)
    &&& forall|i: int| 0 <= i < plan.report.decisions@.len() ==> decision_cel(plan.tracks@, #[trigger] plan.report.decisions@[i])
    &&& forall|f: int, i: int| 0 <= f < observations.len() && 0 <= i < observations[f]@.len()
        ==> decided(plan.report.decisions@, f, (#[trigger] observations[f]@[i]).source_layer_id)
    &&& forall|q: int| 0 <= q < plan.report.decisions@.len() ==> decision_observed(observations, #[trigger] plan.report.decisions@[q])
    &&& forall|q: int| 0 <= q < plan.report.decisions@.len() ==> instances_counted(observations, #[trigger] plan.report.decisions@[q])
    &&& decisions_distinct(plan.report.decisions@)
    &&& plan_cels_decided(plan.tracks@, plan.report.decisions@)
    &&& forall|q: int| 0 <= q < plan.report.decisions@.len()
        ==> (#[trigger] plan.report.decisions@[q]).margin <= plan.report.decisions@[q].score <= 100
    &&& plan.report.decisions@.len() == observation_total(observations)
    &&& texts(plan.report.name_diagnostics@) == name_notes(plan.report.decisions@)
    &&& texts(plan.report.family_diagnostics@) == family_notes(plan.report.decisions@)
    &&& texts(plan.report.exclusion_diagnostics@) == exclusion_notes(plan.report.decisions@)
    &&& plan.report.omitted_source_layer_ids@.to_multiset() == unobserved(pixel_ids_in(document.root_layers@), observations).to_multiset()
    &&& plan.report.omitted_source_layer_ids@.to_multiset() == never_shown(pixel_ids_in(document.root_layers@), document).to_multiset()
    &&& forall|i: int, j: int| 0 <= i < j < plan.report.omitted_source_layer_ids@.len()
        ==> #[trigger] plan.report.omitted_source_layer_ids@[i] <= #[trigger] plan.report.omitted_source_layer_ids@[j]
}

/// The largest number of tracks, and of nodes in the layer tree, a plan can number.
pub open spec fn plan_limit() -> int {
    0x7fff_ffff
}

/// The tracks in anchor order.
#[verifier::opaque]
pub open spec fn anchor_order_of(tracks: Seq<TrackBuilder>) -> Seq<usize> {
    track_ids(tracks.len()).sort_by(anchor_before(tracks))
}

/// The order pairs that the decisions leave unresolved.
#[verifier::opaque]
pub open spec fn order_notes(frames: Seq<Vec<Observation>>, tracks: Seq<TrackBuilder>, decisions: Seq<AssociationDecision>) -> Seq<OrderNote> {
    reviewed_support(frames, decisions, anchor_order_of(tracks)).1
}

/// Whether strict stable ordering refuses the association: an order pair stays unresolved.
#[verifier::opaque]
pub open spec fn order_refused(
    frames: Seq<Vec<Observation>>,
    tracks: Seq<TrackBuilder>,
    decisions: Seq<AssociationDecision>,
    z_order_mode: LayerZOrderMode,
    stable_order_mode: StableOrderMode,
) -> bool {
    z_order_mode == LayerZOrderMode::Stable && stable_order_mode == StableOrderMode::Strict && order_notes(frames, tracks, decisions).len() > 0
}

/// The order of the tracks in the layer tree: by the order evidence in stable Z-order with
/// consensus or strict ordering, else by anchor.
#[verifier::opaque]
pub open spec fn track_order_of(
    frames: Seq<Vec<Observation>>,
    tracks: Seq<TrackBuilder>,
    decisions: Seq<AssociationDecision>,
    z_order_mode: LayerZOrderMode,
    stable_order_mode: StableOrderMode,
) -> Seq<usize> {
    if z_order_mode == LayerZOrderMode::Stable && stable_order_mode != StableOrderMode::Anchor {
        stable_order(track_ids(tracks.len()), reviewed_support(frames, decisions, anchor_order_of(tracks)).0, anchor_base(anchor_order_of(tracks)))
    } else {
        anchor_order_of(tracks)
    }
}

/// The plan drafted from an association, before Z-Indices: the frame selector groups of the
/// document; the group path each track keeps, chosen from its observations, less a first
/// group that wraps everything; the tree of those paths in the track order; the tracks with
/// their cels; and the decisions in order.
#[verifier::opaque]
pub open spec fn plan_drafted(
    document: NormalizedDocument,
    frames: Seq<Vec<Observation>>,
    tracks: Seq<TrackBuilder>,
    decisions: Seq<AssociationDecision>,
    z_order_mode: LayerZOrderMode,
    stable_order_mode: StableOrderMode,
    selectors: Seq<FrameContainerInfo>,
    chosen: Seq<Vec<GroupSegment>>,
    paths: Seq<Vec<GroupSegment>>,
    draft: LayerWritePlan,
) -> bool {
    let roots = document.root_layers@;
    let n = document.frames@.len() as int;
    &&& info_views(selectors) == upsert_all(Seq::empty(), selector_entries(roots, n, None))
    &&& chosen.len() == tracks.len()
    &&& forall|t: int| 0 <= t < tracks.len() ==> (#[trigger] chosen[t])@ == chosen_group_path(tracks[t], roots, n).0
    &&& paths.len() == chosen.len()
    &&& (wraps_everything(chosen, tracks, roots, selectors) ==> forall|i: int| 0 <= i < paths.len() ==> (#[trigger] paths[i])@ == chosen[i]@.drop_first())
    &&& (!wraps_everything(chosen, tracks, roots, selectors) ==> paths == chosen)
    &&& planned_shapes(draft.root_nodes@) == unkeyed_all(built(paths, track_order_of(frames, tracks, decisions, z_order_mode, stable_order_mode)))
    &&& draft.tracks@.len() == tracks.len()
    &&& forall|q: int| 0 <= q < tracks.len() ==> (#[trigger] draft.tracks@[q]).id == tracks[q].id && draft.tracks@[q].cels@ == tracks[q].cels@
    &&& draft.report.decisions@.to_multiset() == decisions.to_multiset()
    &&& decisions_sorted(draft.report.decisions@)
}

/// Whether frames are the observations renumbered and the tracks and decisions an
/// association of them.
#[verifier::opaque]
pub open spec fn associated_run(observations: Seq<Vec<Observation>>, frames: Seq<Vec<Observation>>, tracks: Seq<TrackBuilder>, decisions: Seq<AssociationDecision>) -> bool {
    frames_renumbered(frames, observations) && frames_associated(frames, tracks, decisions)
}

/// What the planner gives once a draft exists: the layer-tree limit error; else the first
/// Z-Index shift outside the 16-bit range; else the draft with its Z-Index shifts applied
/// (as Z-Indices in automatic mode) and one diagnostic per shift.
#[verifier::opaque]
pub open spec fn draft_outcome(draft: LayerWritePlan, frames: Seq<Vec<Observation>>, auto: bool, result: Result<LayerWritePlan, String>) -> bool {
    let changes = plan_changes(draft, frames, frames.len() as int);
    if forest_size(planned_shapes(draft.root_nodes@)) > plan_limit() {
        result matches Err(m) && m@ == tree_limit_text()
    } else if exists|k: int| 0 <= k < changes.len() && !fits_z_index(#[trigger] changes[k].2) {
        result matches Err(m) && exists|k: int| 0 <= k < changes.len() && !fits_z_index(#[trigger] changes[k].2)
            && (forall|j: int| 0 <= j < k ==> fits_z_index(#[trigger] changes[j].2)) && m@ == range_text(changes[k])
    } else {
        &&& result matches Ok(plan)
        &&& plan.root_nodes == draft.root_nodes
        &&& changed_tracks(plan.tracks@, draft.tracks@, changes, auto)
        &&& plan.report == (AssociationReport { z_order_diagnostics: plan.report.z_order_diagnostics, ..draft.report })
        &&& plan.report.z_order_diagnostics@.len() == changes.len()
        &&& forall|k: int| 0 <= k < changes.len() ==> (#[trigger] plan.report.z_order_diagnostics@[k])@ == shift_text(changes[k])
    }
}

/// What the planner gives for observations that are not all empty, by the association it
/// made: the track limit error; else, in strict stable ordering, the first unresolved order
/// pair; else what the drafted plan gives.
#[verifier::opaque]
pub open spec fn run_outcome(
    document: NormalizedDocument,
    frames: Seq<Vec<Observation>>,
    tracks: Seq<TrackBuilder>,
    decisions: Seq<AssociationDecision>,
    z_order_mode: LayerZOrderMode,
    stable_order_mode: StableOrderMode,
    result: Result<LayerWritePlan, String>,
) -> bool {
    if tracks.len() > plan_limit() {
        result matches Err(m) && m@ == track_limit_text()
    } else if order_refused(frames, tracks, decisions, z_order_mode, stable_order_mode) {
        result matches Err(m) && m@ == note_text(order_notes(frames, tracks, decisions)[0], tracks)
    } else {
        exists|selectors: Seq<FrameContainerInfo>, chosen: Seq<Vec<GroupSegment>>, paths: Seq<Vec<GroupSegment>>, draft: LayerWritePlan|
            #[trigger] plan_drafted(document, frames, tracks, decisions, z_order_mode, stable_order_mode, selectors, chosen, paths, draft)
            && draft_outcome(draft, frames, z_order_mode == LayerZOrderMode::Auto, result)
    }
}

proof fn lemma_order_chosen(
    frames: Seq<Vec<Observation>>,
    tracks: Seq<TrackBuilder>,
    decisions: Seq<AssociationDecision>,
    z_order_mode: LayerZOrderMode,
    stable_order_mode: StableOrderMode,
    anchor: Seq<usize>,
    order: Seq<usize>,
)
    requires
        anchor == track_ids(tracks.len()).sort_by(anchor_before(tracks)),
        z_order_mode != LayerZOrderMode::Stable ==> order == anchor,
        z_order_mode == LayerZOrderMode::Stable && stable_order_mode == StableOrderMode::Anchor ==> order == anchor,
        z_order_mode == LayerZOrderMode::Stable && stable_order_mode != StableOrderMode::Anchor ==>
            order == stable_order(track_ids(tracks.len()), reviewed_support(frames, decisions, anchor).0, anchor_base(anchor)),
        z_order_mode == LayerZOrderMode::Stable && stable_order_mode == StableOrderMode::Strict ==> reviewed_support(frames, decisions, anchor).1.len() == 0,
    ensures
        order == track_order_of(frames, tracks, decisions, z_order_mode, stable_order_mode),
        !order_refused(frames, tracks, decisions, z_order_mode, stable_order_mode),
{
    reveal(anchor_order_of);
    reveal(order_notes);
    reveal(order_refused);
    reveal(track_order_of);
}

proof fn lemma_order_refusal(
    frames: Seq<Vec<Observation>>,
    tracks: Seq<TrackBuilder>,
    decisions: Seq<AssociationDecision>,
    z_order_mode: LayerZOrderMode,
    stable_order_mode: StableOrderMode,
    anchor: Seq<usize>,
    message: Seq<char>,
)
    requires
        anchor == track_ids(tracks.len()).sort_by(anchor_before(tracks)),
        z_order_mode == LayerZOrderMode::Stable && stable_order_mode == StableOrderMode::Strict,
        reviewed_support(frames, decisions, anchor).1.len() > 0,
        message == note_text(reviewed_support(frames, decisions, anchor).1[0], tracks),
    ensures
        order_refused(frames, tracks, decisions, z_order_mode, stable_order_mode),
        message == note_text(order_notes(frames, tracks, decisions)[0], tracks),
{
    reveal(anchor_order_of);
    reveal(order_notes);
    reveal(order_refused);
}

proof fn lemma_run_found(
    document: NormalizedDocument,
    observations: Seq<Vec<Observation>>,
    frames: Seq<Vec<Observation>>,
    tracks: Seq<TrackBuilder>,
    decisions: Seq<AssociationDecision>,
    z_order_mode: LayerZOrderMode,
    stable_order_mode: StableOrderMode,
    result: Result<LayerWritePlan, String>,
)
    requires
        frames_renumbered(frames, observations),
        frames_associated(frames, tracks, decisions),
        run_outcome(document, frames, tracks, decisions, z_order_mode, stable_order_mode, result),
    ensures
        exists|frames: Seq<Vec<Observation>>, tracks: Seq<TrackBuilder>, decisions: Seq<AssociationDecision>|
            #[trigger] associated_run(observations, frames, tracks, decisions)
            && run_outcome(document, frames, tracks, decisions, z_order_mode, stable_order_mode, result),
{
    reveal(associated_run);
    assert(associated_run(observations, frames, tracks, decisions));
}

proof fn lemma_refused_outcome(
    document: NormalizedDocument,
    frames: Seq<Vec<Observation>>,
    tracks: Seq<TrackBuilder>,
    decisions: Seq<AssociationDecision>,
    z_order_mode: LayerZOrderMode,
    stable_order_mode: StableOrderMode,
    result: Result<LayerWritePlan, String>,
)
    requires
        tracks.len() > plan_limit() ==> (result matches Err(m) && m@ == track_limit_text()),
        tracks.len() <= plan_limit() ==> (order_refused(frames, tracks, decisions, z_order_mode, stable_order_mode)
            && (result matches Err(m) && m@ == note_text(order_notes(frames, tracks, decisions)[0], tracks))),
    ensures
        run_outcome(document, frames, tracks, decisions, z_order_mode, stable_order_mode, result),
{
    reveal(run_outcome);
}

proof fn lemma_drafted_outcome(
    document: NormalizedDocument,
    frames: Seq<Vec<Observation>>,
    tracks: Seq<TrackBuilder>,
    decisions: Seq<AssociationDecision>,
    z_order_mode: LayerZOrderMode,
    stable_order_mode: StableOrderMode,
    selectors: Seq<FrameContainerInfo>,
    chosen: Seq<Vec<GroupSegment>>,
    paths: Seq<Vec<GroupSegment>>,
    draft: LayerWritePlan,
    result: Result<LayerWritePlan, String>,
)
    requires
        tracks.len() <= plan_limit(),
        !order_refused(frames, tracks, decisions, z_order_mode, stable_order_mode),
        info_views(selectors) == upsert_all(Seq::empty(), selector_entries(document.root_layers@, document.frames@.len() as int, None)),
        chosen.len() == tracks.len(),
        forall|t: int| 0 <= t < tracks.len() ==> (#[trigger] chosen[t])@ == chosen_group_path(tracks[t], document.root_layers@, document.frames@.len() as int).0,
        paths.len() == chosen.len(),
        wraps_everything(chosen, tracks, document.root_layers@, selectors) ==> forall|i: int| 0 <= i < paths.len() ==> (#[trigger] paths[i])@ == chosen[i]@.drop_first(),
        !wraps_everything(chosen, tracks, document.root_layers@, selectors) ==> paths == chosen,
        planned_shapes(draft.root_nodes@) == unkeyed_all(built(paths, track_order_of(frames, tracks, decisions, z_order_mode, stable_order_mode))),
        draft.tracks@.len() == tracks.len(),
        forall|q: int| 0 <= q < tracks.len() ==> (#[trigger] draft.tracks@[q]).id == tracks[q].id && draft.tracks@[q].cels@ == tracks[q].cels@,
        draft.report.decisions@.to_multiset() == decisions.to_multiset(),
        decisions_sorted(draft.report.decisions@),
        ({
            let changes = plan_changes(draft, frames, frames.len() as int);
            if forest_size(planned_shapes(draft.root_nodes@)) > plan_limit() {
                result matches Err(m) && m@ == tree_limit_text()
            } else {
                match result {
                    Err(m) => exists|k: int| 0 <= k < changes.len() && !fits_z_index(#[trigger] changes[k].2)
                        && (forall|j: int| 0 <= j < k ==> fits_z_index(#[trigger] changes[j].2)) && m@ == range_text(changes[k]),
                    Ok(plan) => {
                        &&& forall|k: int| 0 <= k < changes.len() ==> fits_z_index(#[trigger] changes[k].2)
                        &&& plan.root_nodes == draft.root_nodes
                        &&& changed_tracks(plan.tracks@, draft.tracks@, changes, z_order_mode == LayerZOrderMode::Auto)
                        &&& plan.report == (AssociationReport { z_order_diagnostics: plan.report.z_order_diagnostics, ..draft.report })
                        &&& plan.report.z_order_diagnostics@.len() == changes.len()
                        &&& forall|k: int| 0 <= k < changes.len() ==> (#[trigger] plan.report.z_order_diagnostics@[k])@ == shift_text(changes[k])
                    },
                }
            }
        }),
    ensures
        run_outcome(document, frames, tracks, decisions, z_order_mode, stable_order_mode, result),
{
    reveal(run_outcome);
    reveal(plan_drafted);
    reveal(draft_outcome);
    assert(plan_drafted(document, frames, tracks, decisions, z_order_mode, stable_order_mode, selectors, chosen, paths, draft));
    assert(draft_outcome(draft, frames, z_order_mode == LayerZOrderMode::Auto, result));
}

/// Whether observations fit a document: a frame list per document frame, each observation
/// in its frame, well formed, of a distinct layer and in source order.
pub open spec fn observations_fit(document: NormalizedDocument, observations: Seq<Vec<Observation>>) -> bool {
    &&& observations.len() == document.frames@.len()
    &&& document.frames@.len() <= u32::MAX + 1
    &&& forall|f: int, i: int| 0 <= f < observations.len() && 0 <= i < observations[f]@.len() ==> (#[trigger] observations[f]@[i]).frame_index == f
    &&& forall|f: int, i: int| 0 <= f < observations.len() && 0 <= i < observations[f]@.len() ==> observation_wf(#[trigger] observations[f]@[i])
    &&& ids_unique(observations)
    &&& in_source_order(observations)
    &&& observation_total(observations) <= usize::MAX
    &&& forall|f: int, id: u32| 0 <= f < observations.len() ==> (observed_in(observations, f, id)
        <==> #[trigger] visible_pixel_ids_in(document.root_layers@, f, true).contains(id))
}

/// Whether frame `f` has an observation of source layer `id`.
pub open spec fn observed_in(frames: Seq<Vec<Observation>>, f: int, id: u32) -> bool {
    exists|i: int| 0 <= i < frames[f]@.len() && (#[trigger] frames[f]@[i]).source_layer_id == id
}

/// Whether the pixel layer `id` is effectively visible in some frame of the document.
pub open spec fn shown_somewhere(document: NormalizedDocument, id: u32) -> bool {
    exists|f: int| 0 <= f < document.frames@.len() && #[trigger] visible_pixel_ids_in(document.root_layers@, f, true).contains(id)
}

/// The IDs that are effectively visible in no frame of the document, in order.
pub open spec fn never_shown(ids: Seq<u32>, document: NormalizedDocument) -> Seq<u32>
    decreases ids.len(),
{
    if ids.len() == 0 {
        Seq::empty()
    } else {
        let rest = never_shown(ids.drop_last(), document);
        if shown_somewhere(document, ids.last()) { rest } else { rest.push(ids.last()) }
    }
}

/// Whether no pixel layer of the document is effectively visible in any frame.
pub open spec fn nothing_shown(document: NormalizedDocument) -> bool {
    forall|f: int| 0 <= f < document.frames@.len() ==> (#[trigger] visible_pixel_ids_in(document.root_layers@, f, true)).len() == 0
}

proof fn lemma_total_zero(frames: Seq<Vec<Observation>>)
    ensures
        observation_total(frames) == 0 <==> forall|f: int| 0 <= f < frames.len() ==> (#[trigger] frames[f])@.len() == 0,
    decreases frames.len(),
{
    if frames.len() > 0 {
        lemma_total_zero(frames.drop_last());
        assert forall|f: int| 0 <= f < frames.len() - 1 implies (#[trigger] frames[f]) == frames.drop_last()[f] by {}
        if observation_total(frames) == 0 {
            assert forall|f: int| 0 <= f < frames.len() implies (#[trigger] frames[f])@.len() == 0 by {
                if f < frames.len() - 1 {
                    assert(frames.drop_last()[f]@.len() == 0);
                }
            }
        }
        if forall|f: int| 0 <= f < frames.len() ==> (#[trigger] frames[f])@.len() == 0 {
            assert forall|f: int| 0 <= f < frames.drop_last().len() implies (#[trigger] frames.drop_last()[f])@.len() == 0 by {
                assert(frames[f]@.len() == 0);
            }
            assert(frames.last()@.len() == 0);
        }
    }
}

proof fn lemma_nothing_shown(document: NormalizedDocument, observations: Seq<Vec<Observation>>)
    requires
        observations_fit(document, observations),
    ensures
        nothing_shown(document) <==> observation_total(observations) == 0,
{
    lemma_total_zero(observations);
    if nothing_shown(document) {
        assert forall|f: int| 0 <= f < observations.len() implies (#[trigger] observations[f])@.len() == 0 by {
            if observations[f]@.len() > 0 {
                let id = observations[f]@[0].source_layer_id;
                assert(observed_in(observations, f, id));
                assert(visible_pixel_ids_in(document.root_layers@, f, true).contains(id));
                assert(visible_pixel_ids_in(document.root_layers@, f, true).len() == 0);
            }
        }
    }
    if observation_total(observations) == 0 {
        assert forall|f: int| 0 <= f < document.frames@.len() implies (#[trigger] visible_pixel_ids_in(document.root_layers@, f, true)).len() == 0 by {
            let v = visible_pixel_ids_in(document.root_layers@, f, true);
            if v.len() > 0 {
                assert(v.contains(v[0]));
                assert(observed_in(observations, f, v[0]));
                let i = choose|i: int| 0 <= i < observations[f]@.len() && (#[trigger] observations[f]@[i]).source_layer_id == v[0];
                assert(observations[f]@.len() == 0);
            }
        }
    }
}

proof fn lemma_unobserved_is_never_shown(ids: Seq<u32>, document: NormalizedDocument, observations: Seq<Vec<Observation>>)
    requires
        observations_fit(document, observations),
    ensures
        unobserved(ids, observations) == never_shown(ids, document),
    decreases ids.len(),
{
    if ids.len() > 0 {
        lemma_unobserved_is_never_shown(ids.drop_last(), document, observations);
        let id = ids.last();
        if observed(observations, id) {
            let (f, i) = choose|f: int, i: int| 0 <= f < observations.len() && 0 <= i < observations[f]@.len() && (#[trigger] observations[f]@[i]).source_layer_id == id;
            assert(observed_in(observations, f, id));
            assert(visible_pixel_ids_in(document.root_layers@, f, true).contains(id));
            assert(shown_somewhere(document, id));
        }
        if shown_somewhere(document, id) {
            let f = choose|f: int| 0 <= f < document.frames@.len() && #[trigger] visible_pixel_ids_in(document.root_layers@, f, true).contains(id);
            assert(observed_in(observations, f, id));
            let i = choose|i: int| 0 <= i < observations[f]@.len() && (#[trigger] observations[f]@[i]).source_layer_id == id;
            assert(observed(observations, id));
        }
    }
}

/// Builds an automatic logical-layer plan from the effective visible pixel layers of each
/// frame, in source order, with the given z-order and stable-order policies. Every frame is
/// associated into long-lived tracks; the tracks are ordered (by the anchor frame, or by
/// the order evidence in stable mode), given their persistent parent groups and placed in
/// the output tree, and the plan is reported with its decisions in frame and source order
/// and its name, family and exclusion diagnostics. A document without an observation is
/// an error, as is an unresolved order in strict mode and a Z-Index shift out of range.
#[verifier::spinoff_prover]
pub fn build_layer_write_plan_with_order_modes(
    document: &NormalizedDocument,
    observations: Vec<Vec<Observation>>,
    name_catalog_version: u16,
    z_order_mode: LayerZOrderMode,
    stable_order_mode: StableOrderMode,
) -> (result: Result<LayerWritePlan, String>)
    requires
        observations_fit(*document, observations@),
    ensures
        observation_total(observations@) == 0 ==> (result matches Err(message) && message@ == nothing_visible_text()),
        nothing_shown(*document) ==> (result matches Err(message) && message@ == nothing_visible_text()),
        match result {
            Ok(plan) => observation_total(observations@) > 0 && !nothing_shown(*document)
                && plan_built(*document, observations@, name_catalog_version, z_order_mode, stable_order_mode, plan),
            Err(message) => plan_error(observations@, z_order_mode, stable_order_mode, message@),
        },
        observation_total(observations@) > 0 ==> exists|frames: Seq<Vec<Observation>>, tracks: Seq<TrackBuilder>, decisions: Seq<AssociationDecision>|
            #[trigger] associated_run(observations@, frames, tracks, decisions)
            && run_outcome(*document, frames, tracks, decisions, z_order_mode, stable_order_mode, result),
{
    proof {
        lemma_nothing_shown(*document, observations@);
    }
    let n = document.frames.len();
    let ghost input = observations@;
    assert(ids_unique(input));
    let selectors = find_frame_selector_groups(&document.root_layers, n);
    let frames = renumber_frames(observations);
    let observation_count = frame_total(&frames, Ghost(input));
    if observation_count == 0 {
        return Err("automatic layer association found no effective visible pixel layers".to_owned());
    }
    proof {
        assert(frames@.len() > 0);
        assert(frames_indexed(frames@, n)) by {
            assert forall|g: int, i: int| 0 <= g < frames@.len() && 0 <= i < frames@[g]@.len() implies (#[trigger] frames@[g]@[i]).frame_index == g by {
                assert(frames@[g]@[i] == renumbered(input[g]@[i], i));
            }
        }
        assert(ids_unique(frames@)) by {
            assert forall|g: int, a: int, b: int| 0 <= g < frames@.len() && 0 <= a < frames@[g]@.len() && 0 <= b < frames@[g]@.len() && a != b
                implies (#[trigger] frames@[g]@[a]).source_layer_id != (#[trigger] frames@[g]@[b]).source_layer_id by {
                assert(frames@[g]@[a] == renumbered(input[g]@[a], a));
                assert(frames@[g]@[b] == renumbered(input[g]@[b], b));
            }
        }
        assert(frames_wf(frames@)) by {
            assert forall|g: int, i: int| 0 <= g < frames@.len() && 0 <= i < frames@[g]@.len() implies observation_wf(#[trigger] frames@[g]@[i]) by {
                assert(frames@[g]@[i] == renumbered(input[g]@[i], i));
            }
        }
    }
    let (tracks, decisions, _anchor) = associate_frames(&frames, &selectors);
    proof {
        assert(frames_associated(frames@, tracks@, decisions@));
    }
    if tracks.len() > 0x7fff_ffff {
        let result: Result<LayerWritePlan, String> = Err("automatic layer association produced more logical tracks than a plan can number".to_owned());
        proof {
            lemma_refused_outcome(*document, frames@, tracks@, decisions@, z_order_mode, stable_order_mode, result);
            lemma_run_found(*document, input, frames@, tracks@, decisions@, z_order_mode, stable_order_mode, result);
        }
        return result;
    }
    let anchor_order = anchor_track_order(&tracks);
    proof {
        broadcast use vstd::seq_lib::group_to_multiset_ensures;
        lemma_anchor_before_total(tracks@);
        track_ids(tracks@.len()).lemma_sort_by_ensures(anchor_before(tracks@));
        let ids = track_ids(tracks@.len());
        assert(anchor_order@ == ids.sort_by(anchor_before(tracks@)));
        assert(anchor_order@.to_multiset() == ids.to_multiset());
        assert(anchor_order@.to_multiset().len() == anchor_order@.len());
        assert(ids.to_multiset().len() == ids.len());
        assert(anchor_order@.len() == tracks@.len());
    }
    let (track_order, stable_order_diagnostics) = if z_order_mode == LayerZOrderMode::Stable {
        match stable_track_order(&tracks, &frames, &decisions, &anchor_order, stable_order_mode) {
            Ok(found) => found,
            Err(message) => {
                let result: Result<LayerWritePlan, String> = Err(message);
                proof {
                    let (edges, notes) = super::reviewed_support(frames@, decisions@, anchor_order@);
                    assert(message@ == note_text(notes[0], tracks@));
                    assert(order_note_message(message@));
                    lemma_order_refusal(frames@, tracks@, decisions@, z_order_mode, stable_order_mode, anchor_order@, message@);
                    lemma_refused_outcome(*document, frames@, tracks@, decisions@, z_order_mode, stable_order_mode, result);
                    lemma_run_found(*document, input, frames@, tracks@, decisions@, z_order_mode, stable_order_mode, result);
                }
                return result;
            },
        }
    } else {
        (anchor_order, Vec::new())
    };
    proof {
        if z_order_mode == LayerZOrderMode::Stable && stable_order_mode != StableOrderMode::Anchor {
            let (edges, notes) = super::reviewed_support(frames@, decisions@, anchor_order@);
            lemma_stable_order_permutes(track_ids(tracks@.len()), edges, super::anchor_base(anchor_order@));
        }
        lemma_order_bounded(track_order@, tracks@.len());
        lemma_order_chosen(frames@, tracks@, decisions@, z_order_mode, stable_order_mode, anchor_order@, track_order@);
    }
    let omitted = omitted_ids(document, &frames, Ghost(input));
    proof {
        lemma_unobserved_is_never_shown(pixel_ids_in(document.root_layers@), *document, input);
    }
    let mut warnings: Vec<String> = Vec::new();
    if omitted.len() > 0 {
        warnings.push(omitted_warning(omitted.len()));
    }
    let ghost unsorted = decisions@;
    let decisions = sort_decisions(decisions);
    proof {
        broadcast use vstd::seq_lib::group_to_multiset_ensures;
        assert forall|q: int| 0 <= q < decisions@.len() implies decision_placed(tracks@, #[trigger] decisions@[q]) by {
            assert(decisions@.to_multiset().count(decisions@[q]) > 0);
            assert(unsorted.contains(decisions@[q]));
            let w = choose|w: int| 0 <= w < unsorted.len() && unsorted[w] == decisions@[q];
            assert(decision_placed(tracks@, unsorted[w]));
        }
        assert forall|g: int, i: int| 0 <= g < input.len() && 0 <= i < input[g]@.len()
            implies decided(decisions@, g, (#[trigger] input[g]@[i]).source_layer_id) by {
            assert(frames@[g]@[i] == renumbered(input[g]@[i], i));
            assert(decided(unsorted, g, frames@[g]@[i].source_layer_id));
            let w = choose|w: int| 0 <= w < unsorted.len() && (#[trigger] unsorted[w]).frame_index == g
                && unsorted[w].source_layer_id == frames@[g]@[i].source_layer_id;
            assert(unsorted.to_multiset().count(unsorted[w]) > 0);
            assert(decisions@.contains(unsorted[w]));
            let q = choose|q: int| 0 <= q < decisions@.len() && decisions@[q] == unsorted[w];
            assert(decisions@[q].frame_index == g);
        }
        assert forall|q: int| 0 <= q < decisions@.len() implies decision_observed(input, #[trigger] decisions@[q]) by {
            assert(decisions@.to_multiset().count(decisions@[q]) > 0);
            assert(unsorted.contains(decisions@[q]));
            let w = choose|w: int| 0 <= w < unsorted.len() && unsorted[w] == decisions@[q];
            assert(decision_observed(frames@, unsorted[w]));
            let g = decisions@[q].frame_index as int;
            let i = choose|i: int| 0 <= i < frames@[g]@.len() && (#[trigger] frames@[g]@[i]).source_layer_id == decisions@[q].source_layer_id;
            assert(frames@[g]@[i] == renumbered(input[g]@[i], i));
            assert(input[g]@[i].source_layer_id == decisions@[q].source_layer_id);
        }
        assert forall|q: int| 0 <= q < decisions@.len() implies instances_counted(input, #[trigger] decisions@[q]) by {
            assert(decisions@.to_multiset().count(decisions@[q]) > 0);
            assert(unsorted.contains(decisions@[q]));
            let w = choose|w: int| 0 <= w < unsorted.len() && unsorted[w] == decisions@[q];
            assert(instances_counted(frames@, unsorted[w]));
            let g = decisions@[q].frame_index as int;
            let i = choose|i: int| 0 <= i < frames@[g]@.len() && (#[trigger] frames@[g]@[i]).source_layer_id == decisions@[q].source_layer_id
                && decisions@[q].same_frame_instance_count == name_key_count(frames@[g]@, frames@[g]@[i].name_key@, frames@[g]@.len() as int);
            assert(frames@[g]@[i] == renumbered(input[g]@[i], i));
            assert forall|x: int| 0 <= x < frames@[g]@.len() implies (#[trigger] frames@[g]@[x]).name_key@ == input[g]@[x].name_key@ by {
                assert(frames@[g]@[x] == renumbered(input[g]@[x], x));
            }
            lemma_count_renumbered(frames@[g]@, input[g]@, frames@[g]@[i].name_key@, frames@[g]@.len() as int);
            assert(input[g]@[i].source_layer_id == decisions@[q].source_layer_id);
        }
        lemma_permuted_distinct(unsorted, decisions@);
        assert forall|q: int| 0 <= q < decisions@.len() implies (#[trigger] decisions@[q]).margin <= decisions@[q].score <= 100 by {
            assert(decisions@.to_multiset().count(decisions@[q]) > 0);
            assert(unsorted.contains(decisions@[q]));
            let w = choose|w: int| 0 <= w < unsorted.len() && unsorted[w] == decisions@[q];
            assert(unsorted[w].margin <= unsorted[w].score <= 100);
        }
        lemma_decision_count(input, decisions@);
    }
    let mut group_paths = choose_group_paths(&tracks, document, &mut warnings);
    let ghost chosen = group_paths@;
    flatten_redundant_common_root(&mut group_paths, &tracks, document, &selectors, &mut warnings);
    let root_nodes = build_nodes(&group_paths, &track_order);
    proof {
        lemma_built_tracks(group_paths@, track_order@);
    }
    let plan_tracks = logical_tracks(&tracks, &group_paths);
    let name_diagnostics = collect_name_diagnostics(&decisions);
    let family_diagnostics = collect_family_diagnostics(&decisions);
    let exclusion_diagnostics = collect_exclusion_diagnostics(&decisions);
    let track_count = plan_tracks.len();
    let mut plan = LayerWritePlan {
        root_nodes,
        tracks: plan_tracks,
        report: AssociationReport {
            observation_count,
            track_count,
            omitted_source_layer_ids: omitted,
            z_order_mode,
            stable_order_mode,
            name_catalog_version,
            name_diagnostics,
            family_diagnostics,
            exclusion_diagnostics,
            z_order_diagnostics: Vec::new(),
            stable_order_diagnostics,
            decisions,
            warnings,
        },
    };
    if node_count_within(&plan.root_nodes, 0x7fff_ffff).is_none() {
        let result: Result<LayerWritePlan, String> = Err("automatic layer association produced a layer tree larger than a plan can number".to_owned());
        proof {
            lemma_drafted_outcome(*document, frames@, tracks@, unsorted, z_order_mode, stable_order_mode, selectors@, chosen, group_paths@, plan, result);
            lemma_run_found(*document, input, frames@, tracks@, unsorted, z_order_mode, stable_order_mode, result);
        }
        return result;
    }
    let ghost before_z = plan;
    let z_order_diagnostics = match assign_z_indices(&mut plan, &frames, z_order_mode) {
        Ok(notes) => notes,
        Err(message) => {
            proof {
                let changes = super::z_order::plan_changes(before_z, frames@, frames@.len() as int);
                let k = choose|k: int| 0 <= k < changes.len() && !fits_z_index(#[trigger] changes[k].2)
                    && (forall|j: int| 0 <= j < k ==> fits_z_index(#[trigger] changes[j].2))
                    && message@ == range_text(changes[k]);
                assert(z_range_message(message@));
            }
            let result: Result<LayerWritePlan, String> = Err(message);
            proof {
                lemma_drafted_outcome(*document, frames@, tracks@, unsorted, z_order_mode, stable_order_mode, selectors@, chosen, group_paths@, before_z, result);
                lemma_run_found(*document, input, frames@, tracks@, unsorted, z_order_mode, stable_order_mode, result);
            }
            return result;
        },
    };
    plan.report.z_order_diagnostics = z_order_diagnostics;
    proof {
        let changes = super::z_order::plan_changes(before_z, frames@, frames@.len() as int);
        lemma_final_tracks(frames@, input, tracks@, before_z.tracks@, plan.tracks@, changes, z_order_mode == LayerZOrderMode::Auto, n);
        lemma_decisions_on_plan(tracks@, before_z.tracks@, plan.tracks@, changes, z_order_mode == LayerZOrderMode::Auto, n, plan.report.decisions@);
        lemma_plan_cels_decided(tracks@, before_z.tracks@, plan.tracks@, changes, z_order_mode == LayerZOrderMode::Auto, n, unsorted, plan.report.decisions@);
        lemma_nothing_shown(*document, input);
        assert(!nothing_shown(*document));
    }
    let result: Result<LayerWritePlan, String> = Ok(plan);
    proof {
        lemma_drafted_outcome(*document, frames@, tracks@, unsorted, z_order_mode, stable_order_mode, selectors@, chosen, group_paths@, before_z, result);
        lemma_run_found(*document, input, frames@, tracks@, unsorted, z_order_mode, stable_order_mode, result);
    }
    result
}

/// Builds an automatic logical-layer plan in stable z-order, by order consensus.
pub fn build_layer_write_plan(document: &NormalizedDocument, observations: Vec<Vec<Observation>>, name_catalog_version: u16) -> (result: Result<LayerWritePlan, String>)
    requires
        observations_fit(*document, observations@),
    ensures
        observation_total(observations@) == 0 ==> (result matches Err(message) && message@ == nothing_visible_text()),
        result matches Ok(plan) ==> observation_total(observations@) > 0
            && plan_built(*document, observations@, name_catalog_version, LayerZOrderMode::Stable, StableOrderMode::Consensus, plan),
        result matches Err(message) ==> plan_error(observations@, LayerZOrderMode::Stable, StableOrderMode::Consensus, message@),
        observation_total(observations@) > 0 ==> exists|frames: Seq<Vec<Observation>>, tracks: Seq<TrackBuilder>, decisions: Seq<AssociationDecision>|
            #[trigger] associated_run(observations@, frames, tracks, decisions)
            && run_outcome(*document, frames, tracks, decisions, LayerZOrderMode::Stable, StableOrderMode::Consensus, result),
{
    build_layer_write_plan_with_order_modes(document, observations, name_catalog_version, LayerZOrderMode::Stable, StableOrderMode::Consensus)
}

/// Builds an automatic logical-layer plan with an explicit z-order policy, by order
/// consensus.
pub fn build_layer_write_plan_with_z_order(
    document: &NormalizedDocument,
    observations: Vec<Vec<Observation>>,
    name_catalog_version: u16,
    z_order_mode: LayerZOrderMode,
) -> (result: Result<LayerWritePlan, String>)
    requires
        observations_fit(*document, observations@),
    ensures
        observation_total(observations@) == 0 ==> (result matches Err(message) && message@ == nothing_visible_text()),
        result matches Ok(plan) ==> observation_total(observations@) > 0
            && plan_built(*document, observations@, name_catalog_version, z_order_mode, StableOrderMode::Consensus, plan),
        result matches Err(message) ==> plan_error(observations@, z_order_mode, StableOrderMode::Consensus, message@),
        observation_total(observations@) > 0 ==> exists|frames: Seq<Vec<Observation>>, tracks: Seq<TrackBuilder>, decisions: Seq<AssociationDecision>|
            #[trigger] associated_run(observations@, frames, tracks, decisions)
            && run_outcome(*document, frames, tracks, decisions, z_order_mode, StableOrderMode::Consensus, result),
{
    build_layer_write_plan_with_order_modes(document, observations, name_catalog_version, z_order_mode, StableOrderMode::Consensus)
}

} // verus!
