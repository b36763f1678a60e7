//! Association of every frame of a document: the anchor frame opens the tracks, name
//! families are matched across frames, and every other frame is then associated in turn.
use vstd::prelude::*;

use super::association::{
    associate_frame, cel_of, family_count, frame_growth, instances_recorded, name_key_count, frame_recorded, lemma_pending_indices_bound, lemma_pending_is_pending, pending,
    pending_indices, preassigned_track, tracks_wf,
};
use super::families::{
    associate_families_globally, cels_kept, decision_placed, decisions_entered, decisions_placed, entries_valid, entry_decision,
    frames_wf, ids_unique, instances_counted, keys_distinct, lemma_entered_placed, lemma_placed_kept, new_cels_listed, observed_outside_anchor,
};
use super::{
    track_ids, decision, new_track, record_assignment, AssociationDecision, AssociationDecisionStatus,
    AssociationPhase, FrameContainerInfo, Observation, PlannedCel, TrackBuilder,
};

verus! {

/// The number of observations of a frame with a specific name.
pub open spec fn specific_count(frame: Seq<Observation>) -> nat
    decreases frame.len(),
{
    if frame.len() == 0 {
        0
    } else {
        specific_count(frame.drop_last()) + (if frame.last().generic_name { 0nat } else { 1nat })
    }
}

/// What ranks a frame as anchor: its specific names, then its observations, then how early
/// its first observation's frame comes.
pub open spec fn anchor_rank(frame: Seq<Observation>) -> (nat, nat, int) {
    (specific_count(frame), frame.len(), usize::MAX - (if frame.len() > 0 { frame[0].frame_index as int } else { 0 }))
}

/// Whether one rank is above another, comparing its parts in turn.
pub open spec fn rank_above(a: (nat, nat, int), b: (nat, nat, int)) -> bool {
    a.0 > b.0 || (a.0 == b.0 && (a.1 > b.1 || (a.1 == b.1 && a.2 > b.2)))
}

fn frame_rank(frame: &Vec<Observation>) -> (rank: (usize, usize, usize))
    ensures
        rank.0 == anchor_rank(frame@).0,
        rank.1 == anchor_rank(frame@).1,
        rank.2 == anchor_rank(frame@).2,
{
    let mut specific: usize = 0;
    let mut i: usize = 0;
    while i < frame.len()
        invariant
            i <= frame@.len(),
            specific == specific_count(frame@.take(i as int)),
            specific <= i,
        decreases frame@.len() - i,
    {
        assert(frame@.take(i as int + 1).drop_last() == frame@.take(i as int));
        if !frame[i].generic_name {
            specific = specific + 1;
        }
        i = i + 1;
    }
    assert(frame@.take(i as int) == frame@);
    let first: usize = if frame.len() > 0 { frame[0].frame_index } else { 0 };
    (specific, frame.len(), usize::MAX - first)
}

/// Chooses the anchor frame: the frame of highest rank, the last of several with the
/// highest rank.
pub fn choose_anchor_frame(frames: &Vec<Vec<Observation>>) -> (anchor: usize)
    requires
        frames@.len() > 0,
    ensures
        anchor < frames@.len(),
        forall|f: int| 0 <= f < anchor ==> !rank_above(anchor_rank(#[trigger] frames@[f]@), anchor_rank(frames@[anchor as int]@)),
        forall|f: int| anchor < f < frames@.len() ==> rank_above(anchor_rank(frames@[anchor as int]@), anchor_rank(#[trigger] frames@[f]@)),
{
    let mut best: usize = 0;
    let mut best_rank = frame_rank(&frames[0]);
    let mut f: usize = 1;
    while f < frames.len()
        invariant
            1 <= f <= frames@.len(),
            best < f,
            best_rank.0 == anchor_rank(frames@[best as int]@).0,
            best_rank.1 == anchor_rank(frames@[best as int]@).1,
            best_rank.2 == anchor_rank(frames@[best as int]@).2,
            forall|g: int| 0 <= g < best ==> !rank_above(anchor_rank(#[trigger] frames@[g]@), anchor_rank(frames@[best as int]@)),
            forall|g: int| best < g < f ==> rank_above(anchor_rank(frames@[best as int]@), anchor_rank(#[trigger] frames@[g]@)),
        decreases frames@.len() - f,
    {
        let rank = frame_rank(&frames[f]);
        let above_or_equal = rank.0 > best_rank.0 || (rank.0 == best_rank.0 && (rank.1 > best_rank.1
            || (rank.1 == best_rank.1 && rank.2 >= best_rank.2)));
        if above_or_equal {
            let ghost old_best = best as int;
            best = f;
            best_rank = rank;
            proof {
                assert forall|g: int| 0 <= g < best implies !rank_above(anchor_rank(#[trigger] frames@[g]@), anchor_rank(frames@[best as int]@)) by {
                    if g < old_best {
                        assert(!rank_above(anchor_rank(frames@[g]@), anchor_rank(frames@[old_best]@)));
                    } else if g > old_best {
                        assert(rank_above(anchor_rank(frames@[old_best]@), anchor_rank(frames@[g]@)));
                    }
                }
            }
        }
        f = f + 1;
    }
    best
}

/// Opens one track per observation of the anchor frame, in order, each holding that
/// observation's cel.
fn open_anchor_tracks(frame: &Vec<Observation>, anchor: usize, frame_count: usize) -> (opened: (Vec<TrackBuilder>, Vec<AssociationDecision>))
    requires
        anchor < frame_count,
        anchor <= u32::MAX,
        forall|i: int| 0 <= i < frame@.len() ==> (#[trigger] frame@[i]).frame_index == anchor,
    ensures
        tracks_wf(opened.0@, frame_count),
        opened.0@.len() == frame@.len(),
        forall|t: int| 0 <= t < frame@.len() ==> (#[trigger] opened.0@[t]).cels@[anchor as int] == Some(cel_of(frame@[t])),
        forall|t: int, g: int| 0 <= t < frame@.len() && 0 <= g < frame_count && g != anchor ==> (#[trigger] opened.0@[t].cels@[g]) is None,
        opened.1@.len() == frame@.len(),
        decisions_placed(opened.0@, opened.1@),
        forall|q: int| 0 <= q < opened.1@.len() ==> (#[trigger] opened.1@[q]).frame_index == anchor
            && opened.1@[q].source_layer_id == frame@[q].source_layer_id
            && opened.1@[q].score == 100 && opened.1@[q].margin == 100
            && opened.1@[q].same_frame_instance_count == name_key_count(frame@, frame@[q].name_key@, frame@.len() as int),
        cels_decided(opened.0@, opened.1@),
{
    let mut tracks: Vec<TrackBuilder> = Vec::new();
    let mut decisions: Vec<AssociationDecision> = Vec::new();
    let mut i: usize = 0;
    while i < frame.len()
        invariant
            anchor < frame_count,
            anchor <= u32::MAX,
            forall|x: int| 0 <= x < frame@.len() ==> (#[trigger] frame@[x]).frame_index == anchor,
            i <= frame@.len(),
            tracks@.len() == i,
            tracks_wf(tracks@, frame_count),
            forall|t: int| 0 <= t < i ==> (#[trigger] tracks@[t]).cels@[anchor as int] == Some(cel_of(frame@[t])),
            forall|t: int, g: int| 0 <= t < i && 0 <= g < frame_count && g != anchor ==> (#[trigger] tracks@[t].cels@[g]) is None,
            decisions@.len() == i,
            forall|q: int| 0 <= q < i ==> (#[trigger] decisions@[q]).track_id == q && decisions@[q].frame_index == anchor
                && decisions@[q].source_layer_id == frame@[q].source_layer_id
                && decisions@[q].score == 100 && decisions@[q].margin == 100
                && decisions@[q].same_frame_instance_count == name_key_count(frame@, frame@[q].name_key@, frame@.len() as int),
        decreases frame@.len() - i,
    {
        let observation = &frame[i];
        let track_id = tracks.len();
        let ghost before = tracks@;
        tracks.push(new_track(track_id, observation, frame_count));
        record_assignment(
            &mut tracks[track_id],
            observation,
            PlannedCel { source_layer_id: observation.source_layer_id, source_frame_index: observation.frame_index as u32, z_index: 0 },
        );
        let count = family_count(frame, observation);
        let mut evidence: Vec<String> = Vec::new();
        evidence.push("anchor frame".to_owned());
        let mut made = decision(observation, track_id, AssociationDecisionStatus::Strong, 100, 100, evidence, Vec::new());
        made.association_phase = AssociationPhase::Anchor;
        made.same_frame_instance_count = count;
        decisions.push(made);
        proof {
            assert forall|t: int| 0 <= t < tracks@.len() implies (#[trigger] tracks@[t]).id == t && tracks@[t].cels@.len() == frame_count by {
                if t < before.len() {
                    assert(tracks@[t] == before[t]);
                }
            }
            assert forall|t: int| 0 <= t < i + 1 implies (#[trigger] tracks@[t]).cels@[anchor as int] == Some(cel_of(frame@[t])) by {
                if t < before.len() {
                    assert(tracks@[t] == before[t]);
                }
            }
            assert forall|t: int, g: int| 0 <= t < i + 1 && 0 <= g < frame_count && g != anchor implies (#[trigger] tracks@[t].cels@[g]) is None by {
                if t < before.len() {
                    assert(tracks@[t] == before[t]);
                }
            }
        }
        i = i + 1;
    }
    proof {
        assert forall|q: int| 0 <= q < decisions@.len() implies decision_placed(tracks@, #[trigger] decisions@[q]) by {
            assert(tracks@[q].cels@[anchor as int] == Some(cel_of(frame@[q])));
        }
        assert forall|t: int, g: int| 0 <= t < tracks@.len() && 0 <= g < tracks@[t].cels@.len() && (#[trigger] tracks@[t].cels@[g]) is Some
            implies exists|q: int| 0 <= q < decisions@.len() && (#[trigger] decisions@[q]).track_id == t && decisions@[q].frame_index == g
                && decisions@[q].source_layer_id == tracks@[t].cels@[g]->0.source_layer_id by {
            assert(g == anchor);
            assert(decisions@[t].track_id == t);
            assert(tracks@[t].cels@[anchor as int] == Some(cel_of(frame@[t])));
        }
    }
    (tracks, decisions)
}

/// What associating the frames gives: tracks with a cel slot per frame, every observation's
/// cel on one track, no source layer twice in a frame, each cel recording its frame; one
/// decision per observation and none for anything else, each naming the cel it placed,
/// every cel named by one, scores and margins bounded.
pub open spec fn frames_associated(frames: Seq<Vec<Observation>>, tracks: Seq<TrackBuilder>, decisions: Seq<AssociationDecision>) -> bool {
    &&& tracks_wf(tracks, frames.len() as usize)
    &&& forall|f: int| 0 <= f < frames.len() ==> #[trigger] frame_placed(frames, tracks, f)
    &&& forall|f: int| 0 <= f < frames.len() ==> #[trigger] frame_distinct(tracks, f)
    &&& cels_shaped(tracks, frames.len() as int)
    &&& decisions_placed(tracks, decisions)
    &&& forall|f: int, i: int| 0 <= f < frames.len() && 0 <= i < frames[f]@.len()
        ==> decided(decisions, f, (#[trigger] frames[f]@[i]).source_layer_id)
    &&& forall|q: int| 0 <= q < decisions.len() ==> decision_observed(frames, #[trigger] decisions[q])
    &&& decisions_distinct(decisions)
    &&& forall|q: int| 0 <= q < decisions.len() ==> (#[trigger] decisions[q]).margin <= decisions[q].score <= 100
    &&& cels_decided(tracks, decisions)
    &&& forall|q: int| 0 <= q < decisions.len() ==> instances_counted(frames, #[trigger] decisions[q])
}

/// Whether a decision is for an observation of its frame.
pub open spec fn decision_observed(frames: Seq<Vec<Observation>>, d: AssociationDecision) -> bool {
    &&& (d.frame_index as int) < frames.len()
    &&& exists|i: int| 0 <= i < frames[d.frame_index as int]@.len() && (#[trigger] frames[d.frame_index as int]@[i]).source_layer_id == d.source_layer_id
}

/// Whether no two decisions are for the same source layer in the same frame.
pub open spec fn decisions_distinct(decisions: Seq<AssociationDecision>) -> bool {
    forall|a: int, b: int| 0 <= a < b < decisions.len()
        ==> !((#[trigger] decisions[a]).frame_index == (#[trigger] decisions[b]).frame_index
            && decisions[a].source_layer_id == decisions[b].source_layer_id)
}

proof fn lemma_entry_found(preassigned: Seq<((usize, u32), usize)>, e: int)
    requires
        0 <= e < preassigned.len(),
    ensures
        preassigned_track(preassigned, preassigned[e].0.0, preassigned[e].0.1) is Some,
    decreases preassigned.len(),
{
    if preassigned[0].0 != preassigned[e].0 {
        assert(preassigned.drop_first()[e - 1] == preassigned[e]);
        lemma_entry_found(preassigned.drop_first(), e - 1);
    }
}

proof fn lemma_global_distinct(
    frames: Seq<Vec<Observation>>,
    anchor: usize,
    anchor_decisions: Seq<AssociationDecision>,
    decisions: Seq<AssociationDecision>,
    preassigned: Seq<((usize, u32), usize)>,
    tracks: Seq<TrackBuilder>,
)
    requires
        anchor < frames.len(),
        ids_unique(frames),
        anchor_decisions.len() == frames[anchor as int]@.len(),
        forall|q: int| 0 <= q < anchor_decisions.len() ==> (#[trigger] anchor_decisions[q]).frame_index == anchor
            && anchor_decisions[q].source_layer_id == frames[anchor as int]@[q].source_layer_id,
        decisions.len() >= anchor_decisions.len(),
        decisions.take(anchor_decisions.len() as int) == anchor_decisions,
        decisions_entered(decisions, anchor_decisions.len() as int, preassigned, 0),
        keys_distinct(preassigned, 0),
        forall|q: int| anchor_decisions.len() <= q < decisions.len() ==> {
            let d = #[trigger] decisions[q];
            &&& d.track_id < tracks.len()
            &&& exists|i: int| #[trigger] super::families::specific_outside(frames, anchor, d.frame_index as int, i)
                && frames[d.frame_index as int]@[i].source_layer_id == d.source_layer_id
                && tracks[d.track_id as int].name_key@ == frames[d.frame_index as int]@[i].name_key@
        },
    ensures
        decisions_distinct(decisions),
        forall|q: int| 0 <= q < decisions.len() && (#[trigger] decisions[q]).frame_index != anchor
            ==> preassigned_track(preassigned, decisions[q].frame_index as usize, decisions[q].source_layer_id) is Some,
{
        let d0 = anchor_decisions.len() as int;
        assert forall|a: int, b: int| 0 <= a < b < decisions.len() implies
            !((#[trigger] decisions[a]).frame_index == (#[trigger] decisions[b]).frame_index
                && decisions[a].source_layer_id == decisions[b].source_layer_id) by {
            if b < d0 {
                assert(decisions.take(d0)[a] == decisions[a]);
                assert(decisions.take(d0)[b] == decisions[b]);
                assert(frames[anchor as int]@[a].source_layer_id == decisions[a].source_layer_id);
                assert(frames[anchor as int]@[b].source_layer_id == decisions[b].source_layer_id);
            } else if a < d0 {
                assert(decisions.take(d0)[a] == decisions[a]);
                assert(decisions[a].frame_index == anchor);
                let d = decisions[b];
                let i = choose|i: int| #[trigger] super::families::specific_outside(frames, anchor, d.frame_index as int, i)
                    && frames[d.frame_index as int]@[i].source_layer_id == d.source_layer_id
                    && tracks[d.track_id as int].name_key@ == frames[d.frame_index as int]@[i].name_key@;
            } else {
                assert(entry_decision(decisions.skip(d0)[a - d0], preassigned.skip(0)[a - d0]));
                assert(entry_decision(decisions.skip(d0)[b - d0], preassigned.skip(0)[b - d0]));
                assert(decisions.skip(d0)[a - d0] == decisions[a]);
                assert(decisions.skip(d0)[b - d0] == decisions[b]);
                assert(preassigned.skip(0)[a - d0] == preassigned[a - d0]);
                assert(preassigned.skip(0)[b - d0] == preassigned[b - d0]);
                assert(preassigned[a - d0].0 != preassigned[b - d0].0);
            }
        }
        assert forall|q: int| 0 <= q < decisions.len() && decisions[q].frame_index != anchor
            implies preassigned_track(preassigned, (#[trigger] decisions[q]).frame_index as usize, decisions[q].source_layer_id) is Some by {
            if q < d0 {
                assert(decisions.take(d0)[q] == decisions[q]);
            } else {
                assert(entry_decision(decisions.skip(d0)[q - d0], preassigned.skip(0)[q - d0]));
                assert(decisions.skip(d0)[q - d0] == decisions[q]);
                assert(preassigned.skip(0)[q - d0] == preassigned[q - d0]);
                lemma_entry_found(preassigned, q - d0);
            }
        }
}

proof fn lemma_decided_step(
    frames: Seq<Vec<Observation>>,
    anchor: usize,
    step: int,
    f: int,
    preassigned: Seq<((usize, u32), usize)>,
    decisions_before: Seq<AssociationDecision>,
    decisions: Seq<AssociationDecision>,
)
    requires
        anchor < frames.len(),
        0 <= f < frames.len(),
        distance(anchor as int, frames.len() as int, f) == step,
        frames_wf(frames, frames.len() as usize),
        decisions.len() >= decisions_before.len(),
        decisions.take(decisions_before.len() as int) == decisions_before,
        frames_decided(frames, anchor, step, preassigned, decisions_before),
        forall|q: int| 0 <= q < decisions_before.len() ==> decision_observed(frames, #[trigger] decisions_before[q]),
        decisions.len() - decisions_before.len() == pending_indices(frames[f]@, preassigned, frames[f]@.len() as int).len(),
        forall|i: int| 0 <= i < decisions.len() - decisions_before.len() ==> {
            let d = #[trigger] decisions.skip(decisions_before.len() as int)[i];
            let o = frames[f]@[pending_indices(frames[f]@, preassigned, frames[f]@.len() as int)[i]];
            d.source_layer_id == o.source_layer_id && d.frame_index == o.frame_index
        },
    ensures
        frames_decided(frames, anchor, step + 1, preassigned, decisions),
        forall|q: int| 0 <= q < decisions.len() ==> decision_observed(frames, #[trigger] decisions[q]),
{
    let frame = frames[f]@;
    let added = decisions.skip(decisions_before.len() as int);
            let nn = frames.len() as int;
            let order = pending_indices(frame, preassigned, frame.len() as int);
            assert forall|g: int, i: int| 0 <= g < frames.len() && 0 <= i < frames[g]@.len()
                && (distance(anchor as int, nn, g) < step + 1 || preassigned_track(preassigned, g as usize, frames[g]@[i].source_layer_id) is Some)
                implies decided(decisions, g, (#[trigger] frames[g]@[i]).source_layer_id) by {
                if distance(anchor as int, nn, g) < step || preassigned_track(preassigned, g as usize, frames[g]@[i].source_layer_id) is Some {
                    assert(decided(decisions_before, g, frames[g]@[i].source_layer_id));
                    lemma_decided_grows(decisions_before, decisions, g, frames[g]@[i].source_layer_id);
                } else {
                    assert(g == f);
                    assert(frame[i].frame_index == f);
                    lemma_pending_listed(frame, preassigned, frame.len() as int, i);
                    let k = choose|k: int| 0 <= k < order.len() && #[trigger] order[k] == i;
                    assert(added[k] == decisions[decisions_before.len() + k]);
                }
            }
            lemma_pending_indices_bound(frame, preassigned, frame.len() as int);
            assert forall|q: int| 0 <= q < decisions.len() implies decision_observed(frames, #[trigger] decisions[q]) by {
                if q < decisions_before.len() {
                    assert(decisions.take(decisions_before.len() as int)[q] == decisions[q]);
                    assert(decision_observed(frames, decisions_before[q]));
                } else {
                    let k = q - decisions_before.len();
                    assert(added[k] == decisions[q]);
                    assert(0 <= order[k] < frame.len());
                    assert(frame[order[k]].frame_index == f);
                    assert(frames[f as int]@[order[k]].source_layer_id == decisions[q].source_layer_id);
                }
            }
}

proof fn lemma_bounded_grows(before: Seq<AssociationDecision>, after: Seq<AssociationDecision>)
    requires
        before.len() <= after.len(),
        after.take(before.len() as int) == before,
        forall|q: int| 0 <= q < before.len() ==> (#[trigger] before[q]).margin <= before[q].score <= 100,
        forall|q: int| before.len() <= q < after.len() ==> (#[trigger] after[q]).margin <= after[q].score <= 100,
    ensures
        forall|q: int| 0 <= q < after.len() ==> (#[trigger] after[q]).margin <= after[q].score <= 100,
{
    assert forall|q: int| 0 <= q < after.len() implies (#[trigger] after[q]).margin <= after[q].score <= 100 by {
        if q < before.len() {
            assert(after.take(before.len() as int)[q] == after[q]);
            assert(before[q].margin <= before[q].score <= 100);
        }
    }
}

proof fn lemma_distinct_step(
    frames: Seq<Vec<Observation>>,
    anchor: usize,
    step: int,
    f: int,
    preassigned: Seq<((usize, u32), usize)>,
    decisions_before: Seq<AssociationDecision>,
    decisions: Seq<AssociationDecision>,
)
    requires
        anchor < frames.len(),
        0 <= f < frames.len(),
        distance(anchor as int, frames.len() as int, f) == step,
        frames_wf(frames, frames.len() as usize),
        ids_unique(frames),
        decisions.len() >= decisions_before.len(),
        decisions.take(decisions_before.len() as int) == decisions_before,
        decisions_distinct(decisions_before),
        forall|q: int| 0 <= q < decisions_before.len() && distance(anchor as int, frames.len() as int, (#[trigger] decisions_before[q]).frame_index as int) >= step
            ==> preassigned_track(preassigned, decisions_before[q].frame_index as usize, decisions_before[q].source_layer_id) is Some,
        decisions.len() - decisions_before.len() == pending_indices(frames[f]@, preassigned, frames[f]@.len() as int).len(),
        forall|i: int| 0 <= i < decisions.len() - decisions_before.len() ==> {
            let d = #[trigger] decisions.skip(decisions_before.len() as int)[i];
            let o = frames[f]@[pending_indices(frames[f]@, preassigned, frames[f]@.len() as int)[i]];
            d.source_layer_id == o.source_layer_id && d.frame_index == o.frame_index
        },
    ensures
        decisions_distinct(decisions),
        forall|q: int| 0 <= q < decisions.len() && distance(anchor as int, frames.len() as int, (#[trigger] decisions[q]).frame_index as int) >= step + 1
            ==> preassigned_track(preassigned, decisions[q].frame_index as usize, decisions[q].source_layer_id) is Some,
{
    let frame = frames[f]@;
    let nn = frames.len() as int;
    let order = pending_indices(frame, preassigned, frame.len() as int);
    let added = decisions.skip(decisions_before.len() as int);
    lemma_pending_indices_bound(frame, preassigned, frame.len() as int);
            lemma_pending_increasing(frame, preassigned, frame.len() as int);
            let d0 = decisions_before.len() as int;
            assert forall|q: int| d0 <= q < decisions.len() implies {
                &&& (#[trigger] decisions[q]).frame_index == f
                &&& pending(preassigned, frame[order[q - d0]])
                &&& 0 <= order[q - d0] < frame.len()
                &&& decisions[q].source_layer_id == frame[order[q - d0]].source_layer_id
            } by {
                let k = q - d0;
                assert(added[k] == decisions[q]);
                assert(frame[order[k]].frame_index == f);
                assert(order == pending_indices(frame, preassigned, frame.len() as int));
                lemma_pending_is_pending(frame, preassigned, frame.len() as int, k);
            }
            assert forall|a: int, b: int| 0 <= a < b < decisions.len() implies
                !((#[trigger] decisions[a]).frame_index == (#[trigger] decisions[b]).frame_index
                    && decisions[a].source_layer_id == decisions[b].source_layer_id) by {
                if b < d0 {
                    assert(decisions.take(d0)[a] == decisions[a]);
                    assert(decisions.take(d0)[b] == decisions[b]);
                } else if a < d0 {
                    assert(decisions.take(d0)[a] == decisions[a]);
                    if decisions[a].frame_index == f {
                        assert(distance(anchor as int, nn, f as int) == step);
                        assert(preassigned_track(preassigned, decisions_before[a].frame_index as usize, decisions_before[a].source_layer_id) is Some);
                        assert(frame[order[b - d0]].frame_index == f);
                    }
                } else {
                    assert(order[a - d0] < order[b - d0]);
                    assert(frames[f as int]@[order[a - d0]].source_layer_id != frames[f as int]@[order[b - d0]].source_layer_id);
                }
            }
            assert forall|q: int| 0 <= q < decisions.len() && distance(anchor as int, nn, (#[trigger] decisions[q]).frame_index as int) >= step + 1
                implies preassigned_track(preassigned, decisions[q].frame_index as usize, decisions[q].source_layer_id) is Some by {
                if q < d0 {
                    assert(decisions.take(d0)[q] == decisions[q]);
                } else {
                    assert(decisions[q].frame_index == f);
                }
            }
}

proof fn lemma_pending_increasing(observations: Seq<Observation>, preassigned: Seq<((usize, u32), usize)>, k: int)
    requires
        0 <= k <= observations.len(),
    ensures
        forall|a: int, b: int| 0 <= a < b < pending_indices(observations, preassigned, k).len()
            ==> #[trigger] pending_indices(observations, preassigned, k)[a] < #[trigger] pending_indices(observations, preassigned, k)[b],
    decreases k,
{
    if k > 0 {
        lemma_pending_increasing(observations, preassigned, k - 1);
        lemma_pending_indices_bound(observations, preassigned, k - 1);
        let prev = pending_indices(observations, preassigned, k - 1);
        if pending(preassigned, observations[k - 1]) {
            let now = prev.push(k - 1);
            assert forall|a: int, b: int| 0 <= a < b < now.len() implies #[trigger] now[a] < #[trigger] now[b] by {
                if b < prev.len() {
                    assert(now[a] == prev[a] && now[b] == prev[b]);
                } else {
                    assert(now[a] == prev[a]);
                }
            }
        }
    }
}

/// Whether every cel a track holds is named by a decision: for that track, frame and
/// source layer.
pub open spec fn cels_decided(tracks: Seq<TrackBuilder>, decisions: Seq<AssociationDecision>) -> bool {
    forall|t: int, g: int| 0 <= t < tracks.len() && 0 <= g < tracks[t].cels@.len() && (#[trigger] tracks[t].cels@[g]) is Some
        ==> exists|q: int| 0 <= q < decisions.len() && (#[trigger] decisions[q]).track_id == t && decisions[q].frame_index == g
            && decisions[q].source_layer_id == tracks[t].cels@[g]->0.source_layer_id
}

proof fn lemma_cels_decided_global(
    n: usize,
    anchored: Seq<TrackBuilder>,
    anchor_decisions: Seq<AssociationDecision>,
    tracks: Seq<TrackBuilder>,
    decisions: Seq<AssociationDecision>,
    preassigned: Seq<((usize, u32), usize)>,
)
    requires
        cels_decided(anchored, anchor_decisions),
        cels_kept(anchored, tracks),
        decisions.len() >= anchor_decisions.len(),
        decisions.take(anchor_decisions.len() as int) == anchor_decisions,
        decisions_entered(decisions, anchor_decisions.len() as int, preassigned, 0),
        new_cels_listed(anchored, tracks, preassigned, 0),
        tracks_wf(anchored, n),
        tracks_wf(tracks, n),
        tracks.len() <= usize::MAX,
    ensures
        cels_decided(tracks, decisions),
{
    let d0 = anchor_decisions.len() as int;
    assert forall|t: int, g: int| 0 <= t < tracks.len() && 0 <= g < tracks[t].cels@.len() && (#[trigger] tracks[t].cels@[g]) is Some
        implies exists|q: int| 0 <= q < decisions.len() && (#[trigger] decisions[q]).track_id == t && decisions[q].frame_index == g
            && decisions[q].source_layer_id == tracks[t].cels@[g]->0.source_layer_id by {
        assert(tracks[t].cels@.len() == n);
        if t < anchored.len() && anchored[t].cels@[g] is Some {
            assert(tracks[t].cels@[g] == anchored[t].cels@[g]);
            let q = choose|q: int| 0 <= q < anchor_decisions.len() && (#[trigger] anchor_decisions[q]).track_id == t
                && anchor_decisions[q].frame_index == g && anchor_decisions[q].source_layer_id == anchored[t].cels@[g]->0.source_layer_id;
            assert(decisions.take(d0)[q] == decisions[q]);
        } else {
            let e = choose|e: int| 0 <= e < preassigned.len() && #[trigger] preassigned[e] == ((g as usize, tracks[t].cels@[g]->0.source_layer_id), t as usize);
            assert(entry_decision(decisions.skip(d0)[e], preassigned.skip(0)[e]));
            assert(decisions.skip(d0)[e] == decisions[d0 + e]);
            assert(preassigned.skip(0)[e] == preassigned[e]);
        }
    }
}

proof fn lemma_cels_decided_step(
    frame: Seq<Observation>,
    preassigned: Seq<((usize, u32), usize)>,
    before: Seq<TrackBuilder>,
    after: Seq<TrackBuilder>,
    decisions_before: Seq<AssociationDecision>,
    decisions: Seq<AssociationDecision>,
    f: int,
    n: usize,
)
    requires
        0 <= f < n,
        forall|i: int| 0 <= i < frame.len() ==> (#[trigger] frame[i]).frame_index == f,
        tracks_wf(before, n),
        tracks_wf(after, n),
        cels_decided(before, decisions_before),
        decisions.len() >= decisions_before.len(),
        decisions.take(decisions_before.len() as int) == decisions_before,
        frame_growth(before, after, decisions.skip(decisions_before.len() as int), f, n),
        frame_recorded(frame, preassigned, frame.len() as int, decisions.skip(decisions_before.len() as int), after, f),
        forall|t: int, g: int| 0 <= t < before.len() && 0 <= g < n && g != f ==> (#[trigger] after[t].cels@[g]) == before[t].cels@[g],
    ensures
        cels_decided(after, decisions),
{
    let d0 = decisions_before.len() as int;
    let added = decisions.skip(d0);
    let order = pending_indices(frame, preassigned, frame.len() as int);
    lemma_pending_indices_bound(frame, preassigned, frame.len() as int);
    assert forall|t: int, g: int| 0 <= t < after.len() && 0 <= g < after[t].cels@.len() && (#[trigger] after[t].cels@[g]) is Some
        implies exists|q: int| 0 <= q < decisions.len() && (#[trigger] decisions[q]).track_id == t && decisions[q].frame_index == g
            && decisions[q].source_layer_id == after[t].cels@[g]->0.source_layer_id by {
        assert(after[t].cels@.len() == n);
        if t < before.len() && before[t].cels@[g] is Some {
            assert(after[t].cels@[g] == before[t].cels@[g]);
            let q = choose|q: int| 0 <= q < decisions_before.len() && (#[trigger] decisions_before[q]).track_id == t
                && decisions_before[q].frame_index == g && decisions_before[q].source_layer_id == before[t].cels@[g]->0.source_layer_id;
            assert(decisions.take(d0)[q] == decisions[q]);
        } else {
            if g != f {
                if t < before.len() {
                    assert(after[t].cels@[g] == before[t].cels@[g]);
                }
            }
            assert(g == f);
            let i = choose|i: int| 0 <= i < added.len() && (#[trigger] added[i]).track_id == t;
            assert(after[added[i].track_id as int].cels@[f] == Some(cel_of(frame[order[i]])));
            assert(frame[order[i]].frame_index == f);
            assert(added[i] == decisions[d0 + i]);
        }
    }
}

/// Whether some decision is for source layer `id` in frame `f`.
pub open spec fn decided(decisions: Seq<AssociationDecision>, f: int, id: u32) -> bool {
    exists|q: int| 0 <= q < decisions.len() && (#[trigger] decisions[q]).frame_index == f && decisions[q].source_layer_id == id
}

/// Whether the observations of the frames visited before `step`, and those placed by an
/// entry, all have a decision.
pub open spec fn frames_decided(
    frames: Seq<Vec<Observation>>,
    anchor: usize,
    step: int,
    preassigned: Seq<((usize, u32), usize)>,
    decisions: Seq<AssociationDecision>,
) -> bool {
    forall|g: int, i: int| 0 <= g < frames.len() && 0 <= i < frames[g]@.len()
        && (distance(anchor as int, frames.len() as int, g) < step || preassigned_track(preassigned, g as usize, frames[g]@[i].source_layer_id) is Some)
        ==> decided(decisions, g, (#[trigger] frames[g]@[i]).source_layer_id)
}

proof fn lemma_decided_grows(before: Seq<AssociationDecision>, after: Seq<AssociationDecision>, f: int, id: u32)
    requires
        decided(before, f, id),
        before.len() <= after.len(),
        after.take(before.len() as int) == before,
    ensures
        decided(after, f, id),
{
    let q = choose|q: int| 0 <= q < before.len() && (#[trigger] before[q]).frame_index == f && before[q].source_layer_id == id;
    assert(after.take(before.len() as int)[q] == after[q]);
    assert(after[q].frame_index == f);
}

proof fn lemma_pending_listed(observations: Seq<Observation>, preassigned: Seq<((usize, u32), usize)>, k: int, j: int)
    requires
        0 <= j < k <= observations.len(),
        pending(preassigned, observations[j]),
    ensures
        exists|i: int| 0 <= i < pending_indices(observations, preassigned, k).len() && #[trigger] pending_indices(observations, preassigned, k)[i] == j,
    decreases k,
{
    let prev = pending_indices(observations, preassigned, k - 1);
    if j == k - 1 {
        assert(pending_indices(observations, preassigned, k) == prev.push(k - 1));
        assert(pending_indices(observations, preassigned, k)[prev.len() as int] == j);
    } else {
        lemma_pending_listed(observations, preassigned, k - 1, j);
        let i = choose|i: int| 0 <= i < prev.len() && #[trigger] prev[i] == j;
        if pending(preassigned, observations[k - 1]) {
            assert(pending_indices(observations, preassigned, k) == prev.push(k - 1));
            assert(pending_indices(observations, preassigned, k)[i] == j);
        } else {
            assert(pending_indices(observations, preassigned, k)[i] == j);
        }
    }
}

proof fn lemma_preassigned_entry(preassigned: Seq<((usize, u32), usize)>, f: usize, id: u32)
    requires
        preassigned_track(preassigned, f, id) is Some,
    ensures
        exists|e: int| 0 <= e < preassigned.len() && (#[trigger] preassigned[e]).0 == (f, id),
    decreases preassigned.len(),
{
    if preassigned[0].0 != (f, id) {
        lemma_preassigned_entry(preassigned.drop_first(), f, id);
        let e = choose|e: int| 0 <= e < preassigned.drop_first().len() && (#[trigger] preassigned.drop_first()[e]).0 == (f, id);
        assert(preassigned[e + 1] == preassigned.drop_first()[e]);
    }
}

proof fn lemma_placed_step(
    frame: Seq<Observation>,
    preassigned: Seq<((usize, u32), usize)>,
    before: Seq<TrackBuilder>,
    after: Seq<TrackBuilder>,
    decisions_before: Seq<AssociationDecision>,
    decisions_after: Seq<AssociationDecision>,
    f: int,
    n: usize,
)
    requires
        0 <= f < n,
        forall|i: int| 0 <= i < frame.len() ==> (#[trigger] frame[i]).frame_index == f,
        tracks_wf(before, n),
        tracks_wf(after, n),
        decisions_placed(before, decisions_before),
        decisions_after.len() >= decisions_before.len(),
        decisions_after.take(decisions_before.len() as int) == decisions_before,
        frame_growth(before, after, decisions_after.skip(decisions_before.len() as int), f, n),
        frame_recorded(frame, preassigned, frame.len() as int, decisions_after.skip(decisions_before.len() as int), after, f),
    ensures
        decisions_placed(after, decisions_after),
{
    assert(cels_kept(before, after)) by {
        assert forall|t: int, g: int| 0 <= t < before.len() && 0 <= g < before[t].cels@.len() && (#[trigger] before[t].cels@[g]) is Some
            implies after[t].cels@[g] == before[t].cels@[g] by {
            assert(before[t].cels@.len() == n);
        }
    }
    lemma_placed_kept(decisions_before, before, after, n);
    let added = decisions_after.skip(decisions_before.len() as int);
    let order = pending_indices(frame, preassigned, frame.len() as int);
    lemma_pending_indices_bound(frame, preassigned, frame.len() as int);
    assert forall|q: int| 0 <= q < decisions_after.len() implies decision_placed(after, #[trigger] decisions_after[q]) by {
        if q < decisions_before.len() {
            assert(decisions_after.take(decisions_before.len() as int)[q] == decisions_after[q]);
            assert(decision_placed(after, decisions_before[q]));
        } else {
            let i = q - decisions_before.len();
            assert(added[i] == decisions_after[q]);
            assert(after[added[i].track_id as int].cels@[f] == Some(cel_of(frame[order[i]])));
            assert(frame[order[i]].frame_index == f);
        }
    }
}

/// How many steps after the anchor frame a frame comes, wrapping around.
pub open spec fn distance(anchor: int, n: int, f: int) -> int {
    if f >= anchor { f - anchor } else { f + n - anchor }
}

/// Whether some track holds, in frame `f`, the cel of source layer `id`.
pub open spec fn holds_cel(tracks: Seq<TrackBuilder>, f: int, id: u32) -> bool {
    exists|t: int| 0 <= t < tracks.len()
        && #[trigger] tracks[t].cels@[f] == Some(PlannedCel { source_layer_id: id, source_frame_index: f as u32, z_index: 0 })
}

/// Whether every observation of frame `f` has its cel on some track.
pub open spec fn frame_placed(frames: Seq<Vec<Observation>>, tracks: Seq<TrackBuilder>, f: int) -> bool {
    forall|i: int| 0 <= i < frames[f]@.len() ==> holds_cel(tracks, f, (#[trigger] frames[f]@[i]).source_layer_id)
}

/// Whether no two tracks hold, in frame `f`, cels of the same source layer.
pub open spec fn frame_distinct(tracks: Seq<TrackBuilder>, f: int) -> bool {
    forall|a: int, b: int| 0 <= a < tracks.len() && 0 <= b < tracks.len() && a != b
        && (#[trigger] tracks[a].cels@[f]) is Some && (#[trigger] tracks[b].cels@[f]) is Some
        ==> tracks[a].cels@[f]->0.source_layer_id != tracks[b].cels@[f]->0.source_layer_id
}

/// Whether every cel held in frame `f` is listed by an entry.
pub open spec fn listed_by_entries(tracks: Seq<TrackBuilder>, preassigned: Seq<((usize, u32), usize)>, f: int) -> bool {
    forall|t: int| 0 <= t < tracks.len() && (#[trigger] tracks[t].cels@[f]) is Some
        ==> exists|e: int| 0 <= e < preassigned.len() && #[trigger] preassigned[e] == ((f as usize, tracks[t].cels@[f]->0.source_layer_id), t as usize)
}

proof fn lemma_lookup_member(preassigned: Seq<((usize, u32), usize)>, frame: usize, id: u32)
    ensures
        preassigned_track(preassigned, frame, id) matches Some(t) ==> exists|e: int| 0 <= e < preassigned.len() && preassigned[e] == ((frame, id), t),
        preassigned_track(preassigned, frame, id) is None ==> forall|e: int| 0 <= e < preassigned.len() ==> (#[trigger] preassigned[e]).0 != (frame, id),
    decreases preassigned.len(),
{
    if preassigned.len() > 0 {
        if preassigned[0].0 == (frame, id) {
            assert(preassigned[0] == ((frame, id), preassigned[0].1));
        } else {
            let rest = preassigned.drop_first();
            lemma_lookup_member(rest, frame, id);
            if let Some(t) = preassigned_track(preassigned, frame, id) {
                let e = choose|e: int| 0 <= e < rest.len() && rest[e] == ((frame, id), t);
                assert(preassigned[e + 1] == rest[e]);
            } else {
                assert forall|e: int| 0 <= e < preassigned.len() implies (#[trigger] preassigned[e]).0 != (frame, id) by {
                    if e > 0 {
                        assert(preassigned[e] == rest[e - 1]);
                    }
                }
            }
        }
    }
}

proof fn lemma_lookup_unique(preassigned: Seq<((usize, u32), usize)>, e: int)
    requires
        keys_distinct(preassigned, 0),
        0 <= e < preassigned.len(),
    ensures
        preassigned_track(preassigned, preassigned[e].0.0, preassigned[e].0.1) == Some(preassigned[e].1),
    decreases preassigned.len(),
{
    if e > 0 {
        let rest = preassigned.drop_first();
        assert(preassigned[0].0 != preassigned[e].0);
        assert forall|a: int, b: int| 0 <= a < b < rest.len() implies (#[trigger] rest[a]).0 != (#[trigger] rest[b]).0 by {
            assert(rest[a] == preassigned[a + 1]);
            assert(rest[b] == preassigned[b + 1]);
        }
        assert(rest[e - 1] == preassigned[e]);
        lemma_lookup_unique(rest, e - 1);
    }
}

proof fn lemma_pending_order(observations: Seq<Observation>, preassigned: Seq<((usize, u32), usize)>, k: int)
    requires
        0 <= k <= observations.len(),
    ensures
        forall|j: int| 0 <= j < pending_indices(observations, preassigned, k).len() ==> {
            let i = #[trigger] pending_indices(observations, preassigned, k)[j];
            &&& 0 <= i < k
            &&& pending(preassigned, observations[i])
        },
        forall|a: int, b: int| 0 <= a < b < pending_indices(observations, preassigned, k).len()
            ==> #[trigger] pending_indices(observations, preassigned, k)[a] < #[trigger] pending_indices(observations, preassigned, k)[b],
        forall|i: int| 0 <= i < k && pending(preassigned, #[trigger] observations[i])
            ==> exists|j: int| 0 <= j < pending_indices(observations, preassigned, k).len() && #[trigger] pending_indices(observations, preassigned, k)[j] == i,
    decreases k,
{
    if k > 0 {
        lemma_pending_order(observations, preassigned, k - 1);
        let prev = pending_indices(observations, preassigned, k - 1);
        let now = pending_indices(observations, preassigned, k);
        if pending(preassigned, observations[k - 1]) {
            assert(now == prev.push(k - 1));
            assert forall|j: int| 0 <= j < now.len() implies {
                let i = #[trigger] now[j];
                &&& 0 <= i < k
                &&& pending(preassigned, observations[i])
            } by {
                if j < prev.len() {
                    assert(now[j] == prev[j]);
                }
            }
            assert forall|a: int, b: int| 0 <= a < b < now.len() implies #[trigger] now[a] < #[trigger] now[b] by {
                assert(now[a] == prev[a]);
                if b < prev.len() {
                    assert(now[b] == prev[b]);
                } else {
                    assert(prev[a] < k - 1);
                }
            }
            assert forall|i: int| 0 <= i < k && pending(preassigned, #[trigger] observations[i])
                implies exists|j: int| 0 <= j < now.len() && #[trigger] now[j] == i by {
                if i == k - 1 {
                    assert(now[prev.len() as int] == i);
                } else {
                    let j = choose|j: int| 0 <= j < prev.len() && #[trigger] prev[j] == i;
                    assert(now[j] == prev[j]);
                }
            }
        } else {
            assert(now == prev);
        }
    }
}

/// The state of the association of a document after the frames within `step` of the anchor
/// frame have been visited: the tracks are well formed, every entry names a track holding
/// the entry's cel, no two entries name one observation, every entry names an observation
/// outside the anchor frame, every cel of a frame not yet visited is listed by an entry,
/// and every visited frame has each observation's cel on exactly one track.
pub open spec fn driver_wf(frames: Seq<Vec<Observation>>, anchor: usize, step: int, tracks: Seq<TrackBuilder>, preassigned: Seq<((usize, u32), usize)>) -> bool {
    let n = frames.len() as int;
    &&& tracks_wf(tracks, n as usize)
    &&& entries_valid(preassigned, tracks)
    &&& keys_distinct(preassigned, 0)
    &&& forall|e: int| 0 <= e < preassigned.len() ==> observed_outside_anchor(frames, anchor, (#[trigger] preassigned[e]).0.0, preassigned[e].0.1)
    &&& forall|f: int| 0 <= f < n && distance(anchor as int, n, f) >= step ==> #[trigger] listed_by_entries(tracks, preassigned, f)
    &&& forall|f: int| 0 <= f < n && distance(anchor as int, n, f) < step ==> #[trigger] frame_placed(frames, tracks, f) && frame_distinct(tracks, f)
}

proof fn lemma_visited_frame(frames: Seq<Vec<Observation>>, anchor: usize, step: int, tracks: Seq<TrackBuilder>, preassigned: Seq<((usize, u32), usize)>, g: int)
    requires
        driver_wf(frames, anchor, step, tracks, preassigned),
        0 <= g < frames.len(),
        distance(anchor as int, frames.len() as int, g) < step,
    ensures
        frame_placed(frames, tracks, g),
        frame_distinct(tracks, g),
{
    let n = frames.len() as int;
    assert(forall|f: int| 0 <= f < n && distance(anchor as int, n, f) < step ==> #[trigger] frame_placed(frames, tracks, f) && frame_distinct(tracks, f));
    assert(frame_placed(frames, tracks, g) && frame_distinct(tracks, g));
}

#[verifier::rlimit(40)]
proof fn lemma_frame_step(
    frames: Seq<Vec<Observation>>,
    anchor: usize,
    step: int,
    f: int,
    before: Seq<TrackBuilder>,
    after: Seq<TrackBuilder>,
    preassigned: Seq<((usize, u32), usize)>,
    added: Seq<AssociationDecision>,
)
    requires
        anchor < frames.len(),
        frames_wf(frames, frames.len() as usize),
        ids_unique(frames),
        1 <= step < frames.len(),
        0 <= f < frames.len(),
        distance(anchor as int, frames.len() as int, f) == step,
        driver_wf(frames, anchor, step, before, preassigned),
        tracks_wf(after, frames.len() as usize),
        frame_growth(before, after, added, f, frames.len() as usize),
        frame_recorded(frames[f]@, preassigned, frames[f]@.len() as int, added, after, f),
        forall|t: int, g: int| 0 <= t < before.len() && 0 <= g < frames.len() && g != f
            ==> (#[trigger] after[t].cels@[g]) == before[t].cels@[g],
    ensures
        driver_wf(frames, anchor, step + 1, after, preassigned),
{
    let n = frames.len() as int;
    let obs = frames[f]@;
    let order = pending_indices(obs, preassigned, obs.len() as int);
    assert(listed_by_entries(before, preassigned, f));
    assert(forall|g: int| 0 <= g < n && distance(anchor as int, n, g) < step ==> #[trigger] frame_placed(frames, before, g));
    // entries stay valid: they name cels that are kept
    assert forall|e: int| 0 <= e < preassigned.len() implies {
        &&& (#[trigger] preassigned[e]).1 < after.len()
        &&& preassigned[e].0.0 < after[preassigned[e].1 as int].cels@.len()
        &&& after[preassigned[e].1 as int].cels@[preassigned[e].0.0 as int]
            == Some(PlannedCel { source_layer_id: preassigned[e].0.1, source_frame_index: preassigned[e].0.0 as u32, z_index: 0 })
    } by {
        let t = preassigned[e].1 as int;
        let g = preassigned[e].0.0 as int;
        assert(before[t].cels@[g] is Some);
    }
    assert forall|g: int| 0 <= g < n && distance(anchor as int, n, g) >= step + 1 implies #[trigger] listed_by_entries(after, preassigned, g) by {
        assert(listed_by_entries(before, preassigned, g));
        assert forall|t: int| 0 <= t < after.len() && (#[trigger] after[t].cels@[g]) is Some
            implies exists|e: int| 0 <= e < preassigned.len() && #[trigger] preassigned[e] == ((g as usize, after[t].cels@[g]->0.source_layer_id), t as usize) by {
            if t >= before.len() {
                assert(after[t].cels@[g] is None);
            } else {
                assert(after[t].cels@[g] == before[t].cels@[g]);
            }
        }
    }
    assert forall|g: int| 0 <= g < n && distance(anchor as int, n, g) < step + 1 implies #[trigger] frame_placed(frames, after, g) && frame_distinct(after, g) by {
        if distance(anchor as int, n, g) < step {
            assert(g != f);
            lemma_visited_frame(frames, anchor, step, before, preassigned, g);
            assert forall|i: int| 0 <= i < frames[g]@.len() implies holds_cel(after, g, (#[trigger] frames[g]@[i]).source_layer_id) by {
                let id = frames[g]@[i].source_layer_id;
                assert(holds_cel(before, g, id));
                let t = choose|t: int| 0 <= t < before.len()
                    && #[trigger] before[t].cels@[g] == Some(PlannedCel { source_layer_id: id, source_frame_index: g as u32, z_index: 0 });
                assert(after[t].cels@[g] == before[t].cels@[g]);
            }
            assert forall|a: int, b: int| 0 <= a < after.len() && 0 <= b < after.len() && a != b
                && (#[trigger] after[a].cels@[g]) is Some && (#[trigger] after[b].cels@[g]) is Some
                implies after[a].cels@[g]->0.source_layer_id != after[b].cels@[g]->0.source_layer_id by {
                if a >= before.len() {
                    assert(after[a].cels@[g] is None);
                }
                if b >= before.len() {
                    assert(after[b].cels@[g] is None);
                }
                assert(after[a].cels@[g] == before[a].cels@[g]);
                assert(after[b].cels@[g] == before[b].cels@[g]);
            }
        } else {
            assert(g == f) by {
                if g != f {
                    assert(distance(anchor as int, n, g) == step);
                }
            }
            lemma_frame_visited(frames, anchor, f, before, after, preassigned, added);
        }
    }
}

proof fn lemma_frame_visited(
    frames: Seq<Vec<Observation>>,
    anchor: usize,
    f: int,
    before: Seq<TrackBuilder>,
    after: Seq<TrackBuilder>,
    preassigned: Seq<((usize, u32), usize)>,
    added: Seq<AssociationDecision>,
)
    requires
        0 <= f < frames.len(),
        frames_wf(frames, frames.len() as usize),
        ids_unique(frames),
        tracks_wf(after, frames.len() as usize),
        tracks_wf(before, frames.len() as usize),
        keys_distinct(preassigned, 0),
        listed_by_entries(before, preassigned, f),
        forall|e: int| 0 <= e < preassigned.len() ==> {
            &&& (#[trigger] preassigned[e]).1 < after.len()
            &&& preassigned[e].0.0 < after[preassigned[e].1 as int].cels@.len()
            &&& after[preassigned[e].1 as int].cels@[preassigned[e].0.0 as int]
                == Some(PlannedCel { source_layer_id: preassigned[e].0.1, source_frame_index: preassigned[e].0.0 as u32, z_index: 0 })
        },
        frame_growth(before, after, added, f, frames.len() as usize),
        frame_recorded(frames[f]@, preassigned, frames[f]@.len() as int, added, after, f),
    ensures
        frame_placed(frames, after, f),
        frame_distinct(after, f),
{
    let obs = frames[f]@;
    let order = pending_indices(obs, preassigned, obs.len() as int);
    lemma_pending_order(obs, preassigned, obs.len() as int);
    assert forall|i: int| 0 <= i < obs.len() implies holds_cel(after, f, (#[trigger] frames[f]@[i]).source_layer_id) by {
        let o = obs[i];
        assert(o.frame_index == f);
        if pending(preassigned, o) {
            let j = choose|j: int| 0 <= j < order.len() && #[trigger] order[j] == i;
            let t = added[j].track_id as int;
            assert(after[t].cels@[f] == Some(cel_of(obs[order[j]])));
        } else {
            lemma_lookup_member(preassigned, o.frame_index, o.source_layer_id);
            let t = preassigned_track(preassigned, o.frame_index, o.source_layer_id)->0;
            let e = choose|e: int| 0 <= e < preassigned.len() && preassigned[e] == ((o.frame_index, o.source_layer_id), t);
            assert(after[t as int].cels@[f] == Some(PlannedCel { source_layer_id: o.source_layer_id, source_frame_index: f as u32, z_index: 0 }));
        }
    }
    assert forall|a: int, b: int| 0 <= a < after.len() && 0 <= b < after.len() && a != b
        && (#[trigger] after[a].cels@[f]) is Some && (#[trigger] after[b].cels@[f]) is Some
        implies after[a].cels@[f]->0.source_layer_id != after[b].cels@[f]->0.source_layer_id by {
        let old_a = a < before.len() && before[a].cels@[f] is Some;
        let old_b = b < before.len() && before[b].cels@[f] is Some;
        if old_a {
            assert(after[a].cels@[f] == before[a].cels@[f]);
        }
        if old_b {
            assert(after[b].cels@[f] == before[b].cels@[f]);
        }
        if old_a && old_b {
            let ea = choose|e: int| 0 <= e < preassigned.len() && #[trigger] preassigned[e] == ((f as usize, before[a].cels@[f]->0.source_layer_id), a as usize);
            let eb = choose|e: int| 0 <= e < preassigned.len() && #[trigger] preassigned[e] == ((f as usize, before[b].cels@[f]->0.source_layer_id), b as usize);
            assert(ea != eb);
            if ea < eb {
                assert(preassigned[ea].0 != preassigned[eb].0);
            } else {
                assert(preassigned[eb].0 != preassigned[ea].0);
            }
        } else if !old_a && !old_b {
            let ja = choose|i: int| 0 <= i < added.len() && (#[trigger] added[i]).track_id == a;
            let jb = choose|i: int| 0 <= i < added.len() && (#[trigger] added[i]).track_id == b;
            assert(ja != jb);
            assert(after[a].cels@[f] == Some(cel_of(obs[order[ja]])));
            assert(after[b].cels@[f] == Some(cel_of(obs[order[jb]])));
            if ja < jb {
                assert(order[ja] < order[jb]);
            } else {
                assert(order[jb] < order[ja]);
            }
        } else {
            let (oldt, newt) = if old_a { (a, b) } else { (b, a) };
            let e = choose|e: int| 0 <= e < preassigned.len() && #[trigger] preassigned[e] == ((f as usize, before[oldt].cels@[f]->0.source_layer_id), oldt as usize);
            let j = choose|i: int| 0 <= i < added.len() && (#[trigger] added[i]).track_id == newt;
            let o = obs[order[j]];
            assert(pending(preassigned, o));
            assert(after[newt].cels@[f] == Some(cel_of(o)));
            assert(o.frame_index == f);
            lemma_lookup_member(preassigned, o.frame_index, o.source_layer_id);
            if before[oldt].cels@[f]->0.source_layer_id == o.source_layer_id {
                assert(preassigned[e].0 == (o.frame_index, o.source_layer_id));
            }
        }
    }
}

/// Associates every frame of a document: the anchor frame opens one track per observation;
/// name families are then matched across all other frames; and every other frame is then
/// associated in turn, starting after the anchor frame and wrapping around. Returns the
/// tracks, the decisions and the anchor frame. Every observation of every frame ends up
/// with its cel on one track, and no track holds two cels of one frame.
/// Whether every cel that a track holds in frame `g` records source frame `g` and a zero
/// Z-Index.
pub open spec fn cels_shaped(tracks: Seq<TrackBuilder>, n: int) -> bool {
    forall|t: int, g: int| 0 <= t < tracks.len() && 0 <= g < n && (#[trigger] tracks[t].cels@[g]) is Some
        ==> tracks[t].cels@[g]->0.source_frame_index == g as u32 && tracks[t].cels@[g]->0.z_index == 0
}

proof fn lemma_shaped_step(
    frame: Seq<Observation>,
    preassigned: Seq<((usize, u32), usize)>,
    before: Seq<TrackBuilder>,
    after: Seq<TrackBuilder>,
    added: Seq<AssociationDecision>,
    f: int,
    n: usize,
)
    requires
        0 <= f < n,
        n <= u32::MAX + 1,
        cels_shaped(before, n as int),
        tracks_wf(after, n),
        forall|i: int| 0 <= i < frame.len() ==> (#[trigger] frame[i]).frame_index == f,
        frame_growth(before, after, added, f, n),
        frame_recorded(frame, preassigned, frame.len() as int, added, after, f),
        forall|t: int, g: int| 0 <= t < before.len() && 0 <= g < n && g != f
            ==> (#[trigger] after[t].cels@[g]) == before[t].cels@[g],
    ensures
        cels_shaped(after, n as int),
{
    let order = pending_indices(frame, preassigned, frame.len() as int);
    lemma_pending_indices_bound(frame, preassigned, frame.len() as int);
    assert forall|t: int, g: int| 0 <= t < after.len() && 0 <= g < n && (#[trigger] after[t].cels@[g]) is Some
        implies after[t].cels@[g]->0.source_frame_index == g as u32 && after[t].cels@[g]->0.z_index == 0 by {
        if t < before.len() && before[t].cels@[g] is Some {
            assert(after[t].cels@[g] == before[t].cels@[g]);
        } else if g != f {
            if t < before.len() {
                assert(after[t].cels@[g] == before[t].cels@[g]);
            }
        } else {
            let i = choose|i: int| 0 <= i < added.len() && (#[trigger] added[i]).track_id == t;
            assert(after[added[i].track_id as int].cels@[f] == Some(cel_of(frame[order[i]])));
            assert(frame[order[i]].frame_index == f);
        }
    }
}

/// The decisions one frame's association adds count their same-frame instances.
proof fn lemma_counted_step(
    frames: Seq<Vec<Observation>>,
    f: int,
    preassigned: Seq<((usize, u32), usize)>,
    tracks: Seq<TrackBuilder>,
    before: Seq<AssociationDecision>,
    after: Seq<AssociationDecision>,
)
    requires
        0 <= f < frames.len(),
        forall|i: int| 0 <= i < frames[f]@.len() ==> (#[trigger] frames[f]@[i]).frame_index == f,
        before.len() <= after.len(),
        after.take(before.len() as int) == before,
        forall|q: int| 0 <= q < before.len() ==> instances_counted(frames, #[trigger] before[q]),
        frame_recorded(frames[f]@, preassigned, frames[f]@.len() as int, after.skip(before.len() as int), tracks, f),
        instances_recorded(frames[f]@, preassigned, frames[f]@.len() as int, after.skip(before.len() as int)),
    ensures
        forall|q: int| 0 <= q < after.len() ==> instances_counted(frames, #[trigger] after[q]),
{
    let added = after.skip(before.len() as int);
    let order = pending_indices(frames[f]@, preassigned, frames[f]@.len() as int);
    lemma_pending_indices_bound(frames[f]@, preassigned, frames[f]@.len() as int);
    assert forall|q: int| 0 <= q < after.len() implies instances_counted(frames, #[trigger] after[q]) by {
        if q < before.len() {
            assert(after.take(before.len() as int)[q] == after[q]);
            assert(instances_counted(frames, before[q]));
        } else {
            let i = q - before.len();
            assert(added[i] == after[q]);
            assert(0 <= order[i] < frames[f]@.len());
            assert(frames[f]@[order[i]].source_layer_id == after[q].source_layer_id);
            assert(frames[f]@[order[i]].frame_index == f);
        }
    }
}

#[verifier::spinoff_prover]
#[verifier::rlimit(60)]
pub fn associate_frames(frames: &Vec<Vec<Observation>>, selectors: &Vec<FrameContainerInfo>) -> (plan: (Vec<TrackBuilder>, Vec<AssociationDecision>, usize))
    requires
        frames@.len() > 0,
        frames_wf(frames@, frames@.len() as usize),
        ids_unique(frames@),
    ensures
        plan.2 < frames@.len(),
        tracks_wf(plan.0@, frames@.len() as usize),
        forall|f: int| 0 <= f < frames@.len() ==> #[trigger] frame_placed(frames@, plan.0@, f),
        forall|f: int| 0 <= f < frames@.len() ==> #[trigger] frame_distinct(plan.0@, f),
        cels_shaped(plan.0@, frames@.len() as int),
        decisions_placed(plan.0@, plan.1@),
        forall|f: int, i: int| 0 <= f < frames@.len() && 0 <= i < frames@[f]@.len()
            ==> decided(plan.1@, f, (#[trigger] frames@[f]@[i]).source_layer_id),
        forall|q: int| 0 <= q < plan.1@.len() ==> decision_observed(frames@, #[trigger] plan.1@[q]),
        decisions_distinct(plan.1@),
        forall|q: int| 0 <= q < plan.1@.len() ==> (#[trigger] plan.1@[q]).margin <= plan.1@[q].score <= 100,
        cels_decided(plan.0@, plan.1@),
        forall|q: int| 0 <= q < plan.1@.len() ==> instances_counted(frames@, #[trigger] plan.1@[q]),
{
    let n = frames.len();
    let anchor = choose_anchor_frame(frames);
    let (mut tracks, mut decisions) = open_anchor_tracks(&frames[anchor], anchor, n);
    let ghost anchored = tracks@;
    let ghost anchor_decisions = decisions@;
    let mut preassigned: Vec<((usize, u32), usize)> = Vec::new();
    associate_families_globally(frames, anchor, &mut tracks, n, selectors, &mut decisions, &mut preassigned);
    let track_total = tracks.len();
    proof {
        lemma_placed_kept(anchor_decisions, anchored, tracks@, n);
        lemma_entered_placed(decisions@, anchor_decisions.len() as int, preassigned@, 0, tracks@);
        assert forall|q: int| 0 <= q < decisions@.len() implies decision_placed(tracks@, #[trigger] decisions@[q]) by {
            if q < anchor_decisions.len() {
                assert(decisions@.take(anchor_decisions.len() as int)[q] == decisions@[q]);
                assert(decision_placed(tracks@, anchor_decisions[q]));
            }
        }
        let nn = n as int;
        assert forall|g: int, i: int| 0 <= g < frames@.len() && 0 <= i < frames@[g]@.len()
            && (distance(anchor as int, nn, g) < 1 || preassigned_track(preassigned@, g as usize, frames@[g]@[i].source_layer_id) is Some)
            implies decided(decisions@, g, (#[trigger] frames@[g]@[i]).source_layer_id) by {
            if distance(anchor as int, nn, g) < 1 {
                assert(g == anchor);
                assert(decisions@.take(anchor_decisions.len() as int)[i] == decisions@[i]);
                assert(decisions@[i].frame_index == anchor);
            } else {
                lemma_preassigned_entry(preassigned@, g as usize, frames@[g]@[i].source_layer_id);
                let e = choose|e: int| 0 <= e < preassigned@.len() && (#[trigger] preassigned@[e]).0 == (g as usize, frames@[g]@[i].source_layer_id);
                let d0 = anchor_decisions.len() as int;
                assert(entry_decision(decisions@.skip(d0)[e], preassigned@.skip(0)[e]));
                assert(decisions@.skip(d0)[e] == decisions@[d0 + e]);
                assert(preassigned@.skip(0)[e] == preassigned@[e]);
            }
        }
        assert(frames_decided(frames@, anchor, 1, preassigned@, decisions@));
        assert forall|q: int| 0 <= q < decisions@.len() implies decision_observed(frames@, #[trigger] decisions@[q]) by {
            if q < anchor_decisions.len() {
                assert(decisions@.take(anchor_decisions.len() as int)[q] == decisions@[q]);
                assert(frames@[anchor as int]@[q].source_layer_id == decisions@[q].source_layer_id);
            } else {
                let d = decisions@[q];
                let i = choose|i: int| #[trigger] super::families::specific_outside(frames@, anchor, d.frame_index as int, i)
                    && frames@[d.frame_index as int]@[i].source_layer_id == d.source_layer_id
                    && tracks@[d.track_id as int].name_key@ == frames@[d.frame_index as int]@[i].name_key@;
                assert(frames@[d.frame_index as int]@[i].source_layer_id == d.source_layer_id);
            }
        }
        lemma_global_distinct(frames@, anchor, anchor_decisions, decisions@, preassigned@, tracks@);
        lemma_cels_decided_global(n, anchored, anchor_decisions, tracks@, decisions@, preassigned@);
        assert forall|q: int| 0 <= q < decisions@.len() implies instances_counted(frames@, #[trigger] decisions@[q]) by {
            if q < anchor_decisions.len() {
                assert(decisions@.take(anchor_decisions.len() as int)[q] == decisions@[q]);
                assert(frames@[anchor as int]@[q].source_layer_id == decisions@[q].source_layer_id);
            }
        }
        assert forall|q: int| 0 <= q < decisions@.len() implies (#[trigger] decisions@[q]).margin <= decisions@[q].score <= 100 by {
            if q < anchor_decisions.len() {
                assert(decisions@.take(anchor_decisions.len() as int)[q] == decisions@[q]);
            }
        }
    }
    proof {
        let nn = n as int;
        assert(preassigned@.take(0) =~= preassigned@.take(0));
        assert forall|a: int, b: int| 0 <= a < b < preassigned@.len() implies (#[trigger] preassigned@[a]).0 != (#[trigger] preassigned@[b]).0 by {
            assert(keys_distinct(preassigned@, 0));
        }
        assert forall|g: int| 0 <= g < nn && distance(anchor as int, nn, g) >= 1 implies #[trigger] listed_by_entries(tracks@, preassigned@, g) by {
            assert(g != anchor);
            assert forall|t: int| 0 <= t < tracks@.len() && (#[trigger] tracks@[t].cels@[g]) is Some
                implies exists|e: int| 0 <= e < preassigned@.len() && #[trigger] preassigned@[e] == ((g as usize, tracks@[t].cels@[g]->0.source_layer_id), t as usize) by {
                if t < anchored.len() {
                    assert(anchored[t].cels@[g] is None);
                }
            }
        }
        let af = anchor as int;
        assert(frame_placed(frames@, tracks@, af)) by {
            assert forall|i: int| 0 <= i < frames@[af]@.len() implies holds_cel(tracks@, af, (#[trigger] frames@[af]@[i]).source_layer_id) by {
                assert(anchored[i].cels@[af] == Some(cel_of(frames@[af]@[i])));
                assert(tracks@[i].cels@[af] == anchored[i].cels@[af]);
                assert(frames@[af]@[i].frame_index == af);
            }
        }
        assert(frame_distinct(tracks@, af)) by {
            assert forall|a: int, b: int| 0 <= a < tracks@.len() && 0 <= b < tracks@.len() && a != b
                && (#[trigger] tracks@[a].cels@[af]) is Some && (#[trigger] tracks@[b].cels@[af]) is Some
                implies tracks@[a].cels@[af]->0.source_layer_id != tracks@[b].cels@[af]->0.source_layer_id by {
                if a >= anchored.len() || b >= anchored.len() {
                    let t = if a >= anchored.len() { a } else { b };
                    let e = choose|e: int| 0 <= e < preassigned@.len() && #[trigger] preassigned@[e] == ((af as usize, tracks@[t].cels@[af]->0.source_layer_id), t as usize);
                    assert(observed_outside_anchor(frames@, anchor, preassigned@[e].0.0, preassigned@[e].0.1));
                } else {
                    assert(tracks@[a].cels@[af] == anchored[a].cels@[af]);
                    assert(tracks@[b].cels@[af] == anchored[b].cels@[af]);
                    assert(anchored[a].cels@[af] == Some(cel_of(frames@[af]@[a])));
                    assert(anchored[b].cels@[af] == Some(cel_of(frames@[af]@[b])));
                }
            }
        }
        assert forall|g: int| 0 <= g < nn && distance(anchor as int, nn, g) < 1 implies #[trigger] frame_placed(frames@, tracks@, g) && frame_distinct(tracks@, g) by {
            assert(g == af);
        }
        assert(driver_wf(frames@, anchor, 1, tracks@, preassigned@));
        assert forall|t: int, g: int| 0 <= t < tracks@.len() && 0 <= g < nn && (#[trigger] tracks@[t].cels@[g]) is Some
            implies tracks@[t].cels@[g]->0.source_frame_index == g as u32 && tracks@[t].cels@[g]->0.z_index == 0 by {
            if t < anchored.len() && anchored[t].cels@[g] is Some {
                assert(tracks@[t].cels@[g] == anchored[t].cels@[g]);
                assert(g == af);
                assert(frames@[af]@[t].frame_index == af);
            } else {
                let e = choose|e: int| 0 <= e < preassigned@.len() && #[trigger] preassigned@[e] == ((g as usize, tracks@[t].cels@[g]->0.source_layer_id), t as usize);
            }
        }
        assert(cels_shaped(tracks@, nn));
    }
    let mut step: usize = 1;
    while step < n
        invariant
            n == frames@.len(),
            anchor < n,
            frames_wf(frames@, n),
            ids_unique(frames@),
            1 <= step <= n,
            driver_wf(frames@, anchor, step as int, tracks@, preassigned@),
            cels_shaped(tracks@, n as int),
            decisions_placed(tracks@, decisions@),
            tracks_wf(tracks@, n),
            frames_decided(frames@, anchor, step as int, preassigned@, decisions@),
            forall|q: int| 0 <= q < decisions@.len() ==> decision_observed(frames@, #[trigger] decisions@[q]),
            decisions_distinct(decisions@),
            forall|q: int| 0 <= q < decisions@.len() ==> (#[trigger] decisions@[q]).margin <= decisions@[q].score <= 100,
            cels_decided(tracks@, decisions@),
            forall|q: int| 0 <= q < decisions@.len() ==> instances_counted(frames@, #[trigger] decisions@[q]),
            forall|q: int| 0 <= q < decisions@.len() && distance(anchor as int, n as int, (#[trigger] decisions@[q]).frame_index as int) >= step
                ==> preassigned_track(preassigned@, decisions@[q].frame_index as usize, decisions@[q].source_layer_id) is Some,
        decreases n - step,
    {
        let f: usize = if step < n - anchor { anchor + step } else { step - (n - anchor) };
        assert(distance(anchor as int, n as int, f as int) == step);
        let frame = &frames[f];
        let ghost before = tracks@;
        let ghost decisions_before = decisions@;
        proof {
            assert(listed_by_entries(tracks@, preassigned@, f as int));
            if frame@.len() > 0 {
                assert(frame@[0].frame_index == f);
                assert forall|t: int| 0 <= t < tracks@.len() && (#[trigger] tracks@[t]).cels@[frame@[0].frame_index as int] is Some
                    implies exists|k: int| 0 <= k < frame@.len()
                        && preassigned_track(preassigned@, frame@[0].frame_index, (#[trigger] frame@[k]).source_layer_id) == Some(t as usize) by {
                    assert(tracks@[t].cels@[f as int] is Some);
                    let e = choose|e: int| 0 <= e < preassigned@.len() && #[trigger] preassigned@[e] == ((f, tracks@[t].cels@[f as int]->0.source_layer_id), t as usize);
                    assert(observed_outside_anchor(frames@, anchor, preassigned@[e].0.0, preassigned@[e].0.1));
                    let i = choose|i: int| 0 <= i < frames@[f as int]@.len() && #[trigger] frames@[f as int]@[i].source_layer_id == preassigned@[e].0.1;
                    lemma_lookup_unique(preassigned@, e);
                    assert(frame@[i].source_layer_id == preassigned@[e].0.1);
                }
            }
        }
        associate_frame(frame, &mut tracks, n, selectors, &mut decisions, &preassigned);
        proof {
            let added = decisions@.skip(decisions_before.len() as int);
            if frame@.len() == 0 {
                assert(added =~= Seq::<AssociationDecision>::empty());
                assert(frame_growth(before, tracks@, added, f as int, n));
                assert(pending_indices(frame@, preassigned@, 0) =~= Seq::<int>::empty());
                assert(frame_recorded(frame@, preassigned@, 0, added, tracks@, f as int));
            } else {
                assert(frame@[0].frame_index == f);
            }
            lemma_frame_step(frames@, anchor, step as int, f as int, before, tracks@, preassigned@, added);
            lemma_shaped_step(frame@, preassigned@, before, tracks@, added, f as int, n);
            lemma_placed_step(frame@, preassigned@, before, tracks@, decisions_before, decisions@, f as int, n);
            lemma_decided_step(frames@, anchor, step as int, f as int, preassigned@, decisions_before, decisions@);
            lemma_distinct_step(frames@, anchor, step as int, f as int, preassigned@, decisions_before, decisions@);
            lemma_bounded_grows(decisions_before, decisions@);
            lemma_cels_decided_step(frame@, preassigned@, before, tracks@, decisions_before, decisions@, f as int, n);
            lemma_counted_step(frames@, f as int, preassigned@, tracks@, decisions_before, decisions@);
        }
        step = step + 1;
    }
    proof {
        assert(step == n);
        assert(driver_wf(frames@, anchor, n as int, tracks@, preassigned@));
        assert(forall|g: int| 0 <= g < n && distance(anchor as int, n as int, g) < n ==> #[trigger] frame_placed(frames@, tracks@, g) && frame_distinct(tracks@, g));
        assert forall|f: int| 0 <= f < frames@.len() implies #[trigger] frame_placed(frames@, tracks@, f) && frame_distinct(tracks@, f) by {
            if f >= anchor {
                assert(distance(anchor as int, n as int, f) == f - anchor);
            } else {
                assert(distance(anchor as int, n as int, f) == f + n - anchor);
            }
            assert(distance(anchor as int, n as int, f) < n);
            assert(frame_placed(frames@, tracks@, f));
            assert(frame_distinct(tracks@, f));
        }
    }
    proof {
        let nn = n as int;
        assert forall|g: int, i: int| 0 <= g < frames@.len() && 0 <= i < frames@[g]@.len()
            implies decided(decisions@, g, (#[trigger] frames@[g]@[i]).source_layer_id) by {
            if g >= anchor {
                assert(distance(anchor as int, nn, g) == g - anchor);
            } else {
                assert(distance(anchor as int, nn, g) == g + nn - anchor);
            }
        }
    }
    let ghost final_tracks = tracks@;
    let plan = (tracks, decisions, anchor);
    assert(plan.0@ == final_tracks);
    assert forall|f: int| 0 <= f < frames@.len() implies #[trigger] frame_placed(frames@, plan.0@, f) by {
        assert(frame_placed(frames@, final_tracks, f));
    }
    assert forall|f: int| 0 <= f < frames@.len() implies #[trigger] frame_distinct(plan.0@, f) by {
        assert(frame_placed(frames@, final_tracks, f));
        assert(frame_distinct(final_tracks, f));
    }
    plan
}

/// What orders tracks by their anchor: the source order of the track's first observation,
/// or the largest order for a track without one, then the track's index.
pub open spec fn anchor_key(tracks: Seq<TrackBuilder>, t: usize) -> int {
    if 0 <= t < tracks.len() && tracks[t as int].observations@.len() > 0 {
        tracks[t as int].observations@[0].source_order as i32 as int
    } else {
        i32::MAX as int
    }
}

/// The anchor order of tracks as a relation.
pub open spec fn anchor_before(tracks: Seq<TrackBuilder>) -> spec_fn(usize, usize) -> bool {
    |a: usize, b: usize| anchor_key(tracks, a) < anchor_key(tracks, b) || (anchor_key(tracks, a) == anchor_key(tracks, b) && a <= b)
}

pub proof fn lemma_anchor_before_total(tracks: Seq<TrackBuilder>)
    ensures
        vstd::relations::total_ordering(anchor_before(tracks)),
{
}

fn anchor_key_of(tracks: &Vec<TrackBuilder>, t: usize) -> (key: i32)
    requires
        t < tracks@.len(),
    ensures
        key == anchor_key(tracks@, t),
{
    if tracks[t].observations.len() > 0 {
        tracks[t].observations[0].source_order as i32
    } else {
        i32::MAX
    }
}

fn comes_before(tracks: &Vec<TrackBuilder>, a: usize, b: usize) -> (before: bool)
    requires
        a < tracks@.len(),
        b < tracks@.len(),
    ensures
        before == anchor_before(tracks@)(a, b),
{
    let ka = anchor_key_of(tracks, a);
    let kb = anchor_key_of(tracks, b);
    ka < kb || (ka == kb && a <= b)
}

/// Orders the tracks by the source order of their first observation, tracks without one
/// last, ties by track index.
pub fn anchor_track_order(tracks: &Vec<TrackBuilder>) -> (order: Vec<usize>)
    ensures
        order@ == track_ids(tracks@.len()).sort_by(anchor_before(tracks@)),
{
    proof {
        lemma_anchor_before_total(tracks@);
    }
    let ghost leq = anchor_before(tracks@);
    let ghost ids = track_ids(tracks@.len());
    let mut sorted: Vec<usize> = Vec::new();
    assert(ids.take(0) =~= sorted@);
    let mut i: usize = 0;
    while i < tracks.len()
        invariant
            leq == anchor_before(tracks@),
            ids == track_ids(tracks@.len()),
            vstd::relations::total_ordering(leq),
            i <= tracks@.len(),
            forall|k: int| 0 <= k < sorted@.len() ==> #[trigger] sorted@[k] < tracks@.len(),
            vstd::relations::sorted_by(sorted@, leq),
            sorted@.to_multiset() == ids.take(i as int).to_multiset(),
        decreases tracks@.len() - i,
    {
        let mut p: usize = 0;
        while p < sorted.len() && comes_before(tracks, sorted[p], i)
            invariant
                leq == anchor_before(tracks@),
                i < tracks@.len(),
                p <= sorted@.len(),
                forall|k: int| 0 <= k < sorted@.len() ==> #[trigger] sorted@[k] < tracks@.len(),
                forall|k: int| 0 <= k < p ==> #[trigger] leq(sorted@[k], i),
            decreases sorted@.len() - p,
        {
            p = p + 1;
        }
        let ghost before = sorted@;
        proof {
            if p < before.len() {
                assert(leq(i, before[p as int]));
                assert forall|k: int| p <= k < before.len() implies #[trigger] leq(i, before[k]) by {
                    if k > p {
                        assert(leq(before[p as int], before[k]));
                    }
                }
            }
        }
        sorted.insert(p, i);
        proof {
            assert(ids[i as int] == i);
            vstd::seq_lib::to_multiset_insert(before, p as int, i);
            assert(ids.take(i as int + 1) == ids.take(i as int).push(i));
            vstd::seq_lib::to_multiset_build(ids.take(i as int), i);
            assert forall|a: int, c: int| 0 <= a < c < sorted@.len() implies #[trigger] leq(sorted@[a], sorted@[c]) by {
                if a < p && c < p {
                    assert(leq(before[a], before[c]));
                } else if a < p && c == p {
                } else if a < p && c > p {
                    assert(leq(before[a], before[c - 1]));
                } else if a == p {
                } else {
                    assert(leq(before[a - 1], before[c - 1]));
                }
            }
            assert forall|k: int| 0 <= k < sorted@.len() implies #[trigger] sorted@[k] < tracks@.len() by {
                if k < p {
                    assert(sorted@[k] == before[k]);
                } else if k > p {
                    assert(sorted@[k] == before[k - 1]);
                }
            }
        }
        i = i + 1;
    }
    proof {
        assert(ids.take(ids.len() as int) == ids);
        ids.lemma_sort_by_ensures(leq);
        vstd::seq_lib::lemma_sorted_unique(sorted@, ids.sort_by(leq), leq);
    }
    sorted
}

} // verus!
