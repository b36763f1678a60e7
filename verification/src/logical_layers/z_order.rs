//! Per-frame z-order: where the source order of one frame departs from the plan's stable
//! order, and the per-cel Z-Index adjustments that restore it.
use vstd::prelude::*;

use super::scoring::{ascending, sort_orders};
use super::write_plan::{collect_track_indices, forest_indices, forest_size, planned_shapes, LayerWritePlan};
use super::{
    alpha_overlap, alpha_overlaps, decided_track, mapped_track, observation_wf, stable_id_order,
    stable_order, AssociationDecision, LayerZOrderMode, LogicalLayerTrack, Observation, PlannedCel,
};
use crate::text::decimal;

verus! {

/// The flat index recorded last for track `id` among the first `n` entries, if any.
pub open spec fn index_entry(base: Seq<(usize, i32)>, id: usize, n: int) -> Option<i32>
    decreases n,
{
    if n <= 0 || n > base.len() {
        None
    } else if base[n - 1].0 == id {
        Some(base[n - 1].1)
    } else {
        index_entry(base, id, n - 1)
    }
}

/// The flat index of a track, if the entries hold one.
pub open spec fn indexed(base: Seq<(usize, i32)>, id: usize) -> Option<i32> {
    index_entry(base, id, base.len() as int)
}

/// The IDs of the tracks that hold a cel in frame `f`, in plan order.
pub open spec fn active_ids(tracks: Seq<LogicalLayerTrack>, f: int) -> Seq<usize>
    decreases tracks.len(),
{
    if tracks.len() == 0 {
        Seq::empty()
    } else {
        let rest = active_ids(tracks.drop_last(), f);
        if tracks.last().cels@[f] is Some {
            rest.push(tracks.last().id)
        } else {
            rest
        }
    }
}

/// The flat indices of the given tracks that have one, in the tracks' order.
pub open spec fn present_slots(ids: Seq<usize>, base: Seq<(usize, i32)>) -> Seq<i32>
    decreases ids.len(),
{
    if ids.len() == 0 {
        Seq::empty()
    } else {
        let rest = present_slots(ids.drop_last(), base);
        match indexed(base, ids.last()) {
            Some(v) => rest.push(v),
            None => rest,
        }
    }
}

/// The order edge between observations `l < r` of frame `f`: from the track of `l` to the
/// track of `r`, when both have one and their opaque pixels overlap.
pub open spec fn pair_edge(obs: Seq<Observation>, decisions: Seq<AssociationDecision>, f: usize, l: int, r: int) -> Option<(usize, usize)> {
    match (decided_track(decisions, f, obs[l].source_layer_id, decisions.len() as int), decided_track(decisions, f, obs[r].source_layer_id, decisions.len() as int)) {
        (Some(a), Some(b)) => if alpha_overlaps(obs[l], obs[r]) {
            Some((a, b))
        } else {
            None
        },
        _ => None,
    }
}

/// The edges from observation `l` to the observations after it and before `r`.
pub open spec fn row_edges(obs: Seq<Observation>, decisions: Seq<AssociationDecision>, f: usize, l: int, r: int) -> Seq<(usize, usize)>
    decreases r - l,
{
    if r <= l + 1 {
        Seq::empty()
    } else {
        let prev = row_edges(obs, decisions, f, l, r - 1);
        match pair_edge(obs, decisions, f, l, r - 1) {
            Some(e) => prev.push(e),
            None => prev,
        }
    }
}

/// The edges from the observations before `l` to the observations after each of them.
pub open spec fn overlap_edges(obs: Seq<Observation>, decisions: Seq<AssociationDecision>, f: usize, l: int) -> Seq<(usize, usize)>
    decreases l,
{
    if l <= 0 {
        Seq::empty()
    } else {
        overlap_edges(obs, decisions, f, l - 1) + row_edges(obs, decisions, f, l - 1, obs.len() as int)
    }
}

/// The flat indices of a plan's tree, numbered from zero.
pub open spec fn plan_indices(plan: LayerWritePlan) -> Seq<(usize, i32)> {
    forest_indices(planned_shapes(plan.root_nodes@), 0)
}

/// The order of frame `f`'s tracks: the stable order of the active tracks along the
/// frame's overlap edges, by flat index.
pub open spec fn frame_order(plan: LayerWritePlan, frames: Seq<Vec<Observation>>, f: int) -> Seq<usize> {
    stable_order(
        active_ids(plan.tracks@, f),
        overlap_edges(frames[f]@, plan.report.decisions@, f as usize, frames[f]@.len() as int),
        plan_indices(plan),
    )
}

/// The flat indices of frame `f`'s active tracks, ascending.
pub open spec fn frame_slots(plan: LayerWritePlan, f: int) -> Seq<i32> {
    present_slots(active_ids(plan.tracks@, f), plan_indices(plan)).sort_by(ascending())
}

/// The Z-Index shift of the track at rank `r` of frame `f`'s order: the slot of that rank,
/// zero past the slots, less the track's own flat index, zero without one.
pub open spec fn rank_shift(plan: LayerWritePlan, frames: Seq<Vec<Observation>>, f: int, r: int) -> int {
    let slots = frame_slots(plan, f);
    let target: int = if r < slots.len() { slots[r] as int } else { 0 };
    let current: int = match indexed(plan_indices(plan), frame_order(plan, frames, f)[r]) {
        Some(v) => v as int,
        None => 0,
    };
    target - current
}

/// The nonzero shifts of the ranks before `r` of frame `f`, as (frame, track, shift).
pub open spec fn frame_changes(plan: LayerWritePlan, frames: Seq<Vec<Observation>>, f: int, r: int) -> Seq<(usize, usize, int)>
    decreases r,
{
    if r <= 0 {
        Seq::empty()
    } else {
        let prev = frame_changes(plan, frames, f, r - 1);
        let z = rank_shift(plan, frames, f, r - 1);
        if z != 0 {
            prev.push((f as usize, frame_order(plan, frames, f)[r - 1], z))
        } else {
            prev
        }
    }
}

/// The nonzero shifts of the frames before `f`, frame by frame.
pub open spec fn plan_changes(plan: LayerWritePlan, frames: Seq<Vec<Observation>>, f: int) -> Seq<(usize, usize, int)>
    decreases f,
{
    if f <= 0 {
        Seq::empty()
    } else {
        plan_changes(plan, frames, f - 1) + frame_changes(plan, frames, f - 1, frame_order(plan, frames, f - 1).len() as int)
    }
}

/// Whether a shift fits a Z-Index.
pub open spec fn fits_z_index(z: int) -> bool {
    i16::MIN <= z <= i16::MAX
}

/// The shift the last change for the track at position `p` in frame `f` sets, among the
/// first `n` changes.
pub open spec fn last_shift(changes: Seq<(usize, usize, int)>, p: int, f: int, n: int) -> Option<int>
    decreases n,
{
    if n <= 0 || n > changes.len() {
        None
    } else if changes[n - 1].1 as int == p && changes[n - 1].0 as int == f {
        Some(changes[n - 1].2)
    } else {
        last_shift(changes, p, f, n - 1)
    }
}

/// A cel after the given changes: in automatic mode a present cel takes the shift of the
/// last change for its track and frame.
pub open spec fn adjusted_cel(changes: Seq<(usize, usize, int)>, p: int, f: int, cel: Option<PlannedCel>, auto: bool) -> Option<PlannedCel> {
    match cel {
        Some(c) => if auto {
            match last_shift(changes, p, f, changes.len() as int) {
                Some(z) => Some(PlannedCel { z_index: z as i16, ..c }),
                None => Some(c),
            }
        } else {
            Some(c)
        },
        None => None,
    }
}

/// The diagnostic for a nonzero shift.
pub open spec fn shift_text(change: (usize, usize, int)) -> Seq<char> {
    "frame "@ + decimal(change.0 as int) + " track "@ + decimal(change.1 as int)
        + " has a potential source-order change requiring z-index "@ + decimal(change.2)
}

/// The error for a shift that does not fit a Z-Index.
pub open spec fn range_text(change: (usize, usize, int)) -> Seq<char> {
    "logical track "@ + decimal(change.1 as int) + " frame "@ + decimal(change.0 as int)
        + " requires z-index "@ + decimal(change.2) + " outside i16 range"@
}

/// Formats the diagnostic for a nonzero shift; `format!` writes integers in decimal.
#[verifier::external_body]
fn shift_message(frame: usize, track: usize, z: i64) -> (message: String)
    ensures
        message@ == shift_text((frame, track, z as int)),
{
    format!("frame {} track {} has a potential source-order change requiring z-index {}", frame, track, z)
}

/// Formats the error for a shift outside the Z-Index range; `format!` writes integers in
/// decimal.
#[verifier::external_body]
fn range_message(frame: usize, track: usize, z: i64) -> (message: String)
    ensures
        message@ == range_text((frame, track, z as int)),
{
    format!("logical track {} frame {} requires z-index {} outside i16 range", track, frame, z)
}

fn index_of(base: &Vec<(usize, i32)>, id: usize) -> (found: Option<i32>)
    ensures
        found == indexed(base@, id),
{
    let mut n: usize = base.len();
    while n > 0
        invariant
            n <= base@.len(),
            indexed(base@, id) == index_entry(base@, id, n as int),
        decreases n,
    {
        if base[n - 1].0 == id {
            return Some(base[n - 1].1);
        }
        n = n - 1;
    }
    None
}

fn active_track_ids(tracks: &Vec<LogicalLayerTrack>, f: usize) -> (ids: Vec<usize>)
    requires
        forall|t: int| 0 <= t < tracks@.len() ==> f < (#[trigger] tracks@[t]).cels@.len(),
    ensures
        ids@ == active_ids(tracks@, f as int),
{
    let mut ids: Vec<usize> = Vec::new();
    let mut i: usize = 0;
    assert(tracks@.take(0) =~= Seq::<LogicalLayerTrack>::empty());
    while i < tracks.len()
        invariant
            i <= tracks@.len(),
            forall|t: int| 0 <= t < tracks@.len() ==> f < (#[trigger] tracks@[t]).cels@.len(),
            ids@ == active_ids(tracks@.take(i as int), f as int),
        decreases tracks@.len() - i,
    {
        assert(tracks@.take(i as int + 1).drop_last() =~= tracks@.take(i as int));
        assert(tracks@.take(i as int + 1).last() == tracks@[i as int]);
        if tracks[i].cels[f].is_some() {
            ids.push(tracks[i].id);
        }
        i = i + 1;
    }
    assert(tracks@.take(tracks@.len() as int) =~= tracks@);
    ids
}

fn slot_values(ids: &Vec<usize>, base: &Vec<(usize, i32)>) -> (slots: Vec<i32>)
    ensures
        slots@ == present_slots(ids@, base@),
{
    let mut slots: Vec<i32> = Vec::new();
    let mut i: usize = 0;
    assert(ids@.take(0) =~= Seq::<usize>::empty());
    while i < ids.len()
        invariant
            i <= ids@.len(),
            slots@ == present_slots(ids@.take(i as int), base@),
        decreases ids@.len() - i,
    {
        assert(ids@.take(i as int + 1).drop_last() =~= ids@.take(i as int));
        assert(ids@.take(i as int + 1).last() == ids@[i as int]);
        match index_of(base, ids[i]) {
            Some(v) => slots.push(v),
            None => {},
        }
        i = i + 1;
    }
    assert(ids@.take(ids@.len() as int) =~= ids@);
    slots
}

fn frame_edges(obs: &Vec<Observation>, decisions: &Vec<AssociationDecision>, f: usize) -> (edges: Vec<(usize, usize)>)
    requires
        forall|i: int| 0 <= i < obs@.len() ==> observation_wf(#[trigger] obs@[i]),
    ensures
        edges@ == overlap_edges(obs@, decisions@, f, obs@.len() as int),
{
    let mut edges: Vec<(usize, usize)> = Vec::new();
    let mut l: usize = 0;
    while l < obs.len()
        invariant
            l <= obs@.len(),
            forall|i: int| 0 <= i < obs@.len() ==> observation_wf(#[trigger] obs@[i]),
            edges@ == overlap_edges(obs@, decisions@, f, l as int),
        decreases obs@.len() - l,
    {
        let ghost before = edges@;
        let mut r: usize = l + 1;
        assert(row_edges(obs@, decisions@, f, l as int, r as int) =~= Seq::<(usize, usize)>::empty());
        while r < obs.len()
            invariant
                l < r <= obs@.len(),
                forall|i: int| 0 <= i < obs@.len() ==> observation_wf(#[trigger] obs@[i]),
                edges@ == before + row_edges(obs@, decisions@, f, l as int, r as int),
            decreases obs@.len() - r,
        {
            let left = mapped_track(decisions, f, obs[l].source_layer_id);
            let right = mapped_track(decisions, f, obs[r].source_layer_id);
            match (left, right) {
                (Some(a), Some(b)) => {
                    if alpha_overlap(&obs[l], &obs[r]) {
                        edges.push((a, b));
                    }
                },
                _ => {},
            }
            proof {
                let prev = row_edges(obs@, decisions@, f, l as int, r as int);
                match pair_edge(obs@, decisions@, f, l as int, r as int) {
                    Some(e) => {
                        assert(row_edges(obs@, decisions@, f, l as int, r as int + 1) == prev.push(e));
                        assert(before + prev.push(e) =~= (before + prev).push(e));
                    },
                    None => {},
                }
            }
            r = r + 1;
        }
        l = l + 1;
    }
    edges
}

proof fn lemma_active_ids_same(a: Seq<LogicalLayerTrack>, b: Seq<LogicalLayerTrack>, f: int)
    requires
        a.len() == b.len(),
        forall|t: int| 0 <= t < a.len() ==> (#[trigger] a[t]).id == b[t].id && (a[t].cels@[f] is Some <==> b[t].cels@[f] is Some),
    ensures
        active_ids(a, f) == active_ids(b, f),
    decreases a.len(),
{
    if a.len() > 0 {
        assert(a.last() == a[a.len() - 1]);
        assert(b.last() == b[b.len() - 1]);
        lemma_active_ids_same(a.drop_last(), b.drop_last(), f);
    }
}

proof fn lemma_active_ids_bounded(tracks: Seq<LogicalLayerTrack>, f: int, bound: int)
    requires
        forall|t: int| 0 <= t < tracks.len() ==> (#[trigger] tracks[t]).id < bound,
    ensures
        forall|k: int| 0 <= k < active_ids(tracks, f).len() ==> #[trigger] active_ids(tracks, f)[k] < bound,
    decreases tracks.len(),
{
    if tracks.len() > 0 {
        assert(tracks.last() == tracks[tracks.len() - 1]);
        assert forall|t: int| 0 <= t < tracks.drop_last().len() implies (#[trigger] tracks.drop_last()[t]).id < bound by {
            assert(tracks.drop_last()[t] == tracks[t]);
        }
        lemma_active_ids_bounded(tracks.drop_last(), f, bound);
        let all = active_ids(tracks, f);
        let rest = active_ids(tracks.drop_last(), f);
        assert forall|k: int| 0 <= k < all.len() implies #[trigger] all[k] < bound by {
            if k < rest.len() {
                assert(all[k] == rest[k]);
            } else {
                assert(all[k] == tracks.last().id);
            }
        }
    }
}

proof fn lemma_order_bounded(remaining: Seq<usize>, edges: Seq<(usize, usize)>, base: Seq<(usize, i32)>, bound: int)
    requires
        forall|k: int| 0 <= k < remaining.len() ==> #[trigger] remaining[k] < bound,
    ensures
        forall|k: int| 0 <= k < stable_order(remaining, edges, base).len() ==> #[trigger] stable_order(remaining, edges, base)[k] < bound,
{
    broadcast use vstd::seq_lib::group_to_multiset_ensures;

    super::lemma_stable_order_permutes(remaining, edges, base);
    let order = stable_order(remaining, edges, base);
    assert forall|k: int| 0 <= k < order.len() implies #[trigger] order[k] < bound by {
        assert(order.contains(order[k]));
        assert(remaining.to_multiset().count(order[k]) > 0);
        assert(remaining.contains(order[k]));
    }
}

proof fn lemma_frame_changes_prefix(plan: LayerWritePlan, frames: Seq<Vec<Observation>>, f: int, r: int, big: int)
    requires
        0 <= r <= big,
    ensures
        frame_changes(plan, frames, f, r).len() <= frame_changes(plan, frames, f, big).len(),
        forall|k: int| 0 <= k < frame_changes(plan, frames, f, r).len() ==> #[trigger] frame_changes(plan, frames, f, big)[k] == frame_changes(plan, frames, f, r)[k],
    decreases big - r,
{
    if r < big {
        lemma_frame_changes_prefix(plan, frames, f, r, big - 1);
    }
}

proof fn lemma_plan_changes_prefix(plan: LayerWritePlan, frames: Seq<Vec<Observation>>, g: int, h: int)
    requires
        0 <= g <= h,
    ensures
        plan_changes(plan, frames, g).len() <= plan_changes(plan, frames, h).len(),
        forall|k: int| 0 <= k < plan_changes(plan, frames, g).len() ==> #[trigger] plan_changes(plan, frames, h)[k] == plan_changes(plan, frames, g)[k],
    decreases h - g,
{
    if g < h {
        lemma_plan_changes_prefix(plan, frames, g, h - 1);
    }
}

/// The changes made up to rank `r` of frame `f` open the changes of the whole plan.
proof fn lemma_changes_prefix(plan: LayerWritePlan, frames: Seq<Vec<Observation>>, f: int, r: int)
    requires
        0 <= f < frames.len(),
        0 <= r <= frame_order(plan, frames, f).len(),
    ensures
        (plan_changes(plan, frames, f) + frame_changes(plan, frames, f, r)).len() <= plan_changes(plan, frames, frames.len() as int).len(),
        forall|k: int| 0 <= k < (plan_changes(plan, frames, f) + frame_changes(plan, frames, f, r)).len() ==>
            #[trigger] plan_changes(plan, frames, frames.len() as int)[k] == (plan_changes(plan, frames, f) + frame_changes(plan, frames, f, r))[k],
{
    let len_f = frame_order(plan, frames, f).len() as int;
    lemma_frame_changes_prefix(plan, frames, f, r, len_f);
    lemma_plan_changes_prefix(plan, frames, f + 1, frames.len() as int);
    let done = plan_changes(plan, frames, f);
    assert(plan_changes(plan, frames, f + 1) == done + frame_changes(plan, frames, f, len_f));
    let applied = done + frame_changes(plan, frames, f, r);
    assert forall|k: int| 0 <= k < applied.len() implies #[trigger] plan_changes(plan, frames, frames.len() as int)[k] == applied[k] by {
        assert(plan_changes(plan, frames, frames.len() as int)[k] == plan_changes(plan, frames, f + 1)[k]);
        if k >= done.len() {
            assert(frame_changes(plan, frames, f, len_f)[k - done.len()] == frame_changes(plan, frames, f, r)[k - done.len()]);
        }
    }
}

proof fn lemma_last_shift_push(changes: Seq<(usize, usize, int)>, x: (usize, usize, int), p: int, g: int, n: int)
    requires
        0 <= n <= changes.len(),
    ensures
        last_shift(changes.push(x), p, g, n) == last_shift(changes, p, g, n),
    decreases n,
{
    if n > 0 {
        assert(changes.push(x)[n - 1] == changes[n - 1]);
        lemma_last_shift_push(changes, x, p, g, n - 1);
    }
}

/// Whether a track keeps everything but the Z-Index of its cels.
pub open spec fn same_but_z(after: LogicalLayerTrack, before: LogicalLayerTrack) -> bool {
    &&& after.id == before.id
    &&& after.name == before.name
    &&& after.representative_source_layer_id == before.representative_source_layer_id
    &&& after.group_path == before.group_path
    &&& after.cels@.len() == before.cels@.len()
}

/// Whether `after` is `before` with the given changes applied to its cels.
pub open spec fn changed_tracks(after: Seq<LogicalLayerTrack>, before: Seq<LogicalLayerTrack>, changes: Seq<(usize, usize, int)>, auto: bool) -> bool {
    &&& after.len() == before.len()
    &&& forall|p: int| 0 <= p < after.len() ==> same_but_z(#[trigger] after[p], before[p])
    &&& forall|p: int, g: int| 0 <= p < after.len() && 0 <= g < before[p].cels@.len() ==>
        (#[trigger] after[p].cels@[g]) == adjusted_cel(changes, p, g, before[p].cels@[g], auto)
}

/// Derives per-frame Z-Index shifts. The plan's tree numbers its nodes in tree order. For
/// every frame, the tracks with a cel are ordered along the frame's overlap edges (from the
/// lower to the upper of two overlapping observations whose tracks the decisions record),
/// by flat index; the flat indices of these tracks, ascending, are the slots, and the track
/// at each rank is shifted by the slot of that rank less its own flat index. Every nonzero
/// shift leaves a diagnostic, and in automatic mode becomes the Z-Index of the track's cel
/// in that frame. A shift that does not fit a Z-Index is an error.
pub fn assign_z_indices(plan: &mut LayerWritePlan, frames: &Vec<Vec<Observation>>, mode: LayerZOrderMode) -> (result: Result<Vec<String>, String>)
    requires
        forest_size(planned_shapes(old(plan).root_nodes@)) <= i32::MAX,
        forall|t: int| 0 <= t < old(plan).tracks@.len() ==> frames@.len() <= (#[trigger] old(plan).tracks@[t]).cels@.len(),
        mode == LayerZOrderMode::Auto ==> forall|t: int| 0 <= t < old(plan).tracks@.len() ==> (#[trigger] old(plan).tracks@[t]).id < old(plan).tracks@.len(),
        forall|f: int, i: int| 0 <= f < frames@.len() && 0 <= i < frames@[f]@.len() ==> observation_wf(#[trigger] frames@[f]@[i]),
    ensures
        final(plan).root_nodes == old(plan).root_nodes,
        final(plan).report == old(plan).report,
        match result {
            Ok(notes) => {
                let changes = plan_changes(*old(plan), frames@, frames@.len() as int);
                &&& forall|k: int| 0 <= k < changes.len() ==> fits_z_index(#[trigger] changes[k].2)
                &&& notes@.len() == changes.len()
                &&& forall|k: int| 0 <= k < changes.len() ==> (#[trigger] notes@[k])@ == shift_text(changes[k])
                &&& changed_tracks(final(plan).tracks@, old(plan).tracks@, changes, mode == LayerZOrderMode::Auto)
            },
            Err(message) => {
                let changes = plan_changes(*old(plan), frames@, frames@.len() as int);
                exists|k: int| 0 <= k < changes.len() && !fits_z_index(#[trigger] changes[k].2)
                    && (forall|j: int| 0 <= j < k ==> fits_z_index(#[trigger] changes[j].2))
                    && message@ == range_text(changes[k])
                    && changed_tracks(final(plan).tracks@, old(plan).tracks@, changes.take(k), mode == LayerZOrderMode::Auto)
            },
        },
{
    let ghost pre = *plan;
    let ghost auto = mode == LayerZOrderMode::Auto;
    let mut base: Vec<(usize, i32)> = Vec::new();
    let mut next: i32 = 0;
    collect_track_indices(&plan.root_nodes, &mut next, &mut base);
    assert(base@ =~= plan_indices(pre));
    let mut notes: Vec<String> = Vec::new();
    let mut f: usize = 0;
    proof {
        assert(plan_changes(pre, frames@, 0) =~= Seq::<(usize, usize, int)>::empty());
    }
    while f < frames.len()
        invariant
            f <= frames@.len(),
            pre == *old(plan),
            base@ == plan_indices(pre),
            auto == (mode == LayerZOrderMode::Auto),
            plan.root_nodes == pre.root_nodes,
            plan.report == pre.report,
            forall|t: int| 0 <= t < pre.tracks@.len() ==> frames@.len() <= (#[trigger] pre.tracks@[t]).cels@.len(),
            auto ==> forall|t: int| 0 <= t < pre.tracks@.len() ==> (#[trigger] pre.tracks@[t]).id < pre.tracks@.len(),
            forall|g: int, i: int| 0 <= g < frames@.len() && 0 <= i < frames@[g]@.len() ==> observation_wf(#[trigger] frames@[g]@[i]),
            forall|k: int| 0 <= k < plan_changes(pre, frames@, f as int).len() ==> fits_z_index(#[trigger] plan_changes(pre, frames@, f as int)[k].2),
            notes@.len() == plan_changes(pre, frames@, f as int).len(),
            forall|k: int| 0 <= k < notes@.len() ==> (#[trigger] notes@[k])@ == shift_text(plan_changes(pre, frames@, f as int)[k]),
            changed_tracks(plan.tracks@, pre.tracks@, plan_changes(pre, frames@, f as int), auto),
        decreases frames@.len() - f,
    {
        proof {
            assert forall|t: int| 0 <= t < plan.tracks@.len() implies f < (#[trigger] plan.tracks@[t]).cels@.len() by {
                assert(same_but_z(plan.tracks@[t], pre.tracks@[t]));
            }
            assert forall|t: int| 0 <= t < pre.tracks@.len() implies (#[trigger] plan.tracks@[t]).id == pre.tracks@[t].id
                && (plan.tracks@[t].cels@[f as int] is Some <==> pre.tracks@[t].cels@[f as int] is Some) by {
                assert(same_but_z(plan.tracks@[t], pre.tracks@[t]));
                assert(plan.tracks@[t].cels@[f as int] == adjusted_cel(plan_changes(pre, frames@, f as int), t, f as int, pre.tracks@[t].cels@[f as int], auto));
            }
            lemma_active_ids_same(plan.tracks@, pre.tracks@, f as int);
        }
        let active = active_track_ids(&plan.tracks, f);
        let edges = frame_edges(&frames[f], &plan.report.decisions, f);
        let ordered = stable_id_order(&active, &edges, &base);
        let slots = sort_orders(slot_values(&active, &base));
        let ghost order = frame_order(pre, frames@, f as int);
        assert(ordered@ == order);
        assert(slots@ == frame_slots(pre, f as int));
        proof {
            if auto {
                lemma_active_ids_bounded(pre.tracks@, f as int, pre.tracks@.len() as int);
                lemma_order_bounded(active@, edges@, base@, pre.tracks@.len() as int);
            }
        }
        let ghost done = plan_changes(pre, frames@, f as int);
        let mut r: usize = 0;
        assert(frame_changes(pre, frames@, f as int, 0) =~= Seq::<(usize, usize, int)>::empty());
        assert(done + frame_changes(pre, frames@, f as int, 0) =~= done);
        while r < ordered.len()
            invariant
                f < frames@.len(),
                pre == *old(plan),
                r <= ordered@.len(),
                ordered@ == order,
                order == frame_order(pre, frames@, f as int),
                slots@ == frame_slots(pre, f as int),
                base@ == plan_indices(pre),
                done == plan_changes(pre, frames@, f as int),
                auto == (mode == LayerZOrderMode::Auto),
                plan.root_nodes == pre.root_nodes,
                plan.report == pre.report,
                auto ==> forall|k: int| 0 <= k < ordered@.len() ==> #[trigger] ordered@[k] < pre.tracks@.len(),
                forall|t: int| 0 <= t < pre.tracks@.len() ==> frames@.len() <= (#[trigger] pre.tracks@[t]).cels@.len(),
                forall|k: int| 0 <= k < (done + frame_changes(pre, frames@, f as int, r as int)).len()
                    ==> fits_z_index(#[trigger] (done + frame_changes(pre, frames@, f as int, r as int))[k].2),
                notes@.len() == (done + frame_changes(pre, frames@, f as int, r as int)).len(),
                forall|k: int| 0 <= k < notes@.len() ==> (#[trigger] notes@[k])@ == shift_text((done + frame_changes(pre, frames@, f as int, r as int))[k]),
                changed_tracks(plan.tracks@, pre.tracks@, done + frame_changes(pre, frames@, f as int, r as int), auto),
            decreases ordered@.len() - r,
        {
            let ghost applied = done + frame_changes(pre, frames@, f as int, r as int);
            let track_id = ordered[r];
            let target: i64 = if r < slots.len() { slots[r] as i64 } else { 0 };
            let current: i64 = match index_of(&base, track_id) {
                Some(v) => v as i64,
                None => 0,
            };
            let z: i64 = target - current;
            assert(z == rank_shift(pre, frames@, f as int, r as int));
            let ghost change = (f, track_id, z as int);
            if z != 0 {
                proof {
                    assert(frame_changes(pre, frames@, f as int, r as int + 1) == frame_changes(pre, frames@, f as int, r as int).push(change));
                    assert(done + frame_changes(pre, frames@, f as int, r as int + 1) =~= applied.push(change));
                }
                if z < -32768 || z > 32767 {
                    proof {
                        let all = plan_changes(pre, frames@, frames@.len() as int);
                        lemma_changes_prefix(pre, frames@, f as int, r as int + 1);
                        let k = applied.len() as int;
                        assert(all[k] == change);
                        assert(all.take(k) =~= applied);
                        assert forall|j: int| 0 <= j < k implies fits_z_index(#[trigger] all[j].2) by {
                            assert(all[j] == applied[j]);
                        }
                    }
                    return Err(range_message(f, track_id, z));
                }
                let ghost notes_before = notes@;
                notes.push(shift_message(f, track_id, z));
                let ghost tracks_before = plan.tracks@;
                if mode == LayerZOrderMode::Auto {
                    proof {
                        assert(same_but_z(plan.tracks@[track_id as int], pre.tracks@[track_id as int]));
                        assert(frames@.len() <= pre.tracks@[track_id as int].cels@.len());
                    }
                    let track = &mut plan.tracks[track_id];
                    match track.cels[f] {
                        Some(cel) => {
                            track.cels.set(f, Some(PlannedCel {
                                source_layer_id: cel.source_layer_id,
                                source_frame_index: cel.source_frame_index,
                                z_index: z as i16,
                            }));
                        },
                        None => {},
                    }
                }
                proof {
                    let grown = applied.push(change);
                    assert forall|p: int, g: int| 0 <= p < plan.tracks@.len() && 0 <= g < pre.tracks@[p].cels@.len() implies
                        (#[trigger] plan.tracks@[p].cels@[g]) == adjusted_cel(grown, p, g, pre.tracks@[p].cels@[g], auto) by {
                        assert(same_but_z(tracks_before[p], pre.tracks@[p]));
                        assert(tracks_before[p].cels@[g] == adjusted_cel(applied, p, g, pre.tracks@[p].cels@[g], auto));
                        lemma_last_shift_push(applied, change, p, g, applied.len() as int);
                        assert(last_shift(grown, p, g, grown.len() as int) == if p == track_id as int && g == f as int { Some(z as int) } else { last_shift(applied, p, g, applied.len() as int) });
                    }
                    assert forall|p: int| 0 <= p < plan.tracks@.len() implies same_but_z(#[trigger] plan.tracks@[p], pre.tracks@[p]) by {
                        assert(same_but_z(tracks_before[p], pre.tracks@[p]));
                    }
                    assert forall|k: int| 0 <= k < notes@.len() implies (#[trigger] notes@[k])@ == shift_text(grown[k]) by {
                        if k < applied.len() {
                            assert(notes@[k] == notes_before[k]);
                        }
                    }
                }
            } else {
                proof {
                    assert(frame_changes(pre, frames@, f as int, r as int + 1) == frame_changes(pre, frames@, f as int, r as int));
                }
            }
            r = r + 1;
        }
        proof {
            assert(plan_changes(pre, frames@, f as int + 1) == done + frame_changes(pre, frames@, f as int, order.len() as int));
        }
        f = f + 1;
    }
    Ok(notes)
}

/// Orders the tracks of a frame's cels along the frame's edges, by flat index.
pub fn stable_topological_order(active: &Vec<(usize, PlannedCel)>, edges: &Vec<(usize, usize)>, base: &Vec<(usize, i32)>) -> (order: Vec<usize>)
    ensures
        order@ == stable_order(active@.map_values(|entry: (usize, PlannedCel)| entry.0), edges@, base@),
{
    let mut ids: Vec<usize> = Vec::new();
    let mut i: usize = 0;
    while i < active.len()
        invariant
            i <= active@.len(),
            ids@ == active@.take(i as int).map_values(|entry: (usize, PlannedCel)| entry.0),
        decreases active@.len() - i,
    {
        ids.push(active[i].0);
        assert(active@.take(i as int + 1).map_values(|entry: (usize, PlannedCel)| entry.0)
            =~= active@.take(i as int).map_values(|entry: (usize, PlannedCel)| entry.0).push(active@[i as int].0));
        i = i + 1;
    }
    assert(active@.take(active@.len() as int) =~= active@);
    stable_id_order(&ids, edges, base)
}

/// In stable mode the Z-Index of every cel stays as it was: the shifts are only reported.
pub proof fn lemma_stable_mode_keeps_cels(changes: Seq<(usize, usize, int)>, p: int, g: int, cel: Option<PlannedCel>)
    ensures
        adjusted_cel(changes, p, g, cel, false) == cel,
{
}

} // verus!
