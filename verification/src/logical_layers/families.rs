//! Association of whole name families across all frames before the frames are visited
//! one by one.
use vstd::prelude::*;

use super::association::{candidate_order, cel_of, lemma_sorted_bounded, name_key_count, sort_candidates, tracks_wf, AssignmentMetadata};
use super::group_paths::{bytes_before, text_before, text_precedes};
use super::matching::{
    find_best_global_family_matching, global_lookup, global_search, global_track, has_global_candidate,
    lemma_global_matching_one_per_frame, position_list, slot_one_to_one, views,
    FrameObservation,
};
use super::scoring::{candidate_names, candidate_score, candidate_score_of, evidence_for, holds_same_pixels, rejection_reasons};
use super::{
    decision, exclusion_evidence, new_track, record_assignment, AssociationDecision,
    AssociationDecisionStatus, AssociationExclusionKind, AssociationPhase, FrameContainerInfo,
    Observation, PlannedCel, TrackBuilder,
};

verus! {

/// Whether each frame's observations carry the frame's index, and every frame fits the
/// tracks' cel slots.
pub open spec fn frames_wf(frames: Seq<Vec<Observation>>, frame_count: usize) -> bool {
    &&& frames.len() <= frame_count
    &&& frame_count <= u32::MAX + 1
    &&& forall|f: int, i: int| 0 <= f < frames.len() && 0 <= i < frames[f]@.len() ==> (#[trigger] frames[f]@[i]).frame_index == f
}

/// Whether every entry of the assignments made so far names a track that holds the cel of
/// the entry's observation in the entry's frame.
pub open spec fn entries_valid(preassigned: Seq<((usize, u32), usize)>, tracks: Seq<TrackBuilder>) -> bool {
    forall|e: int| 0 <= e < preassigned.len() ==> {
        &&& (#[trigger] preassigned[e]).1 < tracks.len()
        &&& preassigned[e].0.0 < tracks[preassigned[e].1 as int].cels@.len()
        &&& tracks[preassigned[e].1 as int].cels@[preassigned[e].0.0 as int]
            == Some(PlannedCel { source_layer_id: preassigned[e].0.1, source_frame_index: preassigned[e].0.0 as u32, z_index: 0 })
    }
}

/// Whether the tracks kept every cel they already held.
/// Whether a decision's track holds, in the decision's frame, a cel of the decision's
/// source layer.
pub open spec fn decision_placed(tracks: Seq<TrackBuilder>, d: AssociationDecision) -> bool {
    &&& d.track_id < tracks.len()
    &&& (d.frame_index as int) < tracks[d.track_id as int].cels@.len()
    &&& tracks[d.track_id as int].cels@[d.frame_index as int] matches Some(c) && c.source_layer_id == d.source_layer_id
}

/// Whether every decision's track holds the decision's cel.
pub open spec fn decisions_placed(tracks: Seq<TrackBuilder>, decisions: Seq<AssociationDecision>) -> bool {
    forall|i: int| 0 <= i < decisions.len() ==> decision_placed(tracks, #[trigger] decisions[i])
}

/// Whether a decision is the one recorded with an entry: same frame, source layer and track.
/// Whether a decision counts, as same-frame instances, the observations of its frame that
/// share the name family of the observation it is for.
pub open spec fn instances_counted(frames: Seq<Vec<Observation>>, d: AssociationDecision) -> bool {
    &&& (d.frame_index as int) < frames.len()
    &&& exists|i: int| 0 <= i < frames[d.frame_index as int]@.len()
        && (#[trigger] frames[d.frame_index as int]@[i]).source_layer_id == d.source_layer_id
        && d.same_frame_instance_count == name_key_count(frames[d.frame_index as int]@,
            frames[d.frame_index as int]@[i].name_key@, frames[d.frame_index as int]@.len() as int)
}

pub open spec fn entry_decision(d: AssociationDecision, entry: ((usize, u32), usize)) -> bool {
    &&& d.frame_index == entry.0.0
    &&& d.source_layer_id == entry.0.1
    &&& d.track_id == entry.1
}

/// Whether the decisions from `d0` on are, one for one and in order, those of the entries
/// from `p0` on.
pub open spec fn decisions_entered(decisions: Seq<AssociationDecision>, d0: int, preassigned: Seq<((usize, u32), usize)>, p0: int) -> bool {
    &&& decisions.len() - d0 == preassigned.len() - p0
    &&& forall|i: int| 0 <= i < decisions.len() - d0 ==> entry_decision(#[trigger] decisions.skip(d0)[i], preassigned.skip(p0)[i])
}

proof fn lemma_entered_push(
    dec_before: Seq<AssociationDecision>,
    dec_after: Seq<AssociationDecision>,
    d0: int,
    pre_before: Seq<((usize, u32), usize)>,
    pre_after: Seq<((usize, u32), usize)>,
    p0: int,
)
    requires
        0 <= d0 <= dec_before.len(),
        0 <= p0 <= pre_before.len(),
        decisions_entered(dec_before, d0, pre_before, p0),
        dec_after.len() == dec_before.len() + 1,
        dec_after.take(dec_before.len() as int) == dec_before,
        pre_after.len() == pre_before.len() + 1,
        pre_after.take(pre_before.len() as int) == pre_before,
        entry_decision(dec_after.last(), pre_after.last()),
    ensures
        decisions_entered(dec_after, d0, pre_after, p0),
{
    assert forall|i: int| 0 <= i < dec_after.len() - d0 implies entry_decision(#[trigger] dec_after.skip(d0)[i], pre_after.skip(p0)[i]) by {
        if i < dec_before.len() - d0 {
            assert(dec_after.skip(d0)[i] == dec_after.take(dec_before.len() as int)[d0 + i]);
            assert(pre_after.skip(p0)[i] == pre_after.take(pre_before.len() as int)[p0 + i]);
            assert(dec_before.skip(d0)[i] == dec_before[d0 + i]);
            assert(pre_before.skip(p0)[i] == pre_before[p0 + i]);
        } else {
            assert(dec_after.skip(d0)[i] == dec_after.last());
            assert(pre_after.skip(p0)[i] == pre_after.last());
        }
    }
}

proof fn lemma_entered_chain(
    dec_before: Seq<AssociationDecision>,
    dec_after: Seq<AssociationDecision>,
    d0: int,
    pre_before: Seq<((usize, u32), usize)>,
    pre_after: Seq<((usize, u32), usize)>,
    p0: int,
)
    requires
        0 <= d0 <= dec_before.len() <= dec_after.len(),
        0 <= p0 <= pre_before.len() <= pre_after.len(),
        decisions_entered(dec_before, d0, pre_before, p0),
        decisions_entered(dec_after, dec_before.len() as int, pre_after, pre_before.len() as int),
        dec_after.take(dec_before.len() as int) == dec_before,
        pre_after.take(pre_before.len() as int) == pre_before,
    ensures
        decisions_entered(dec_after, d0, pre_after, p0),
{
    assert forall|i: int| 0 <= i < dec_after.len() - d0 implies entry_decision(#[trigger] dec_after.skip(d0)[i], pre_after.skip(p0)[i]) by {
        if i < dec_before.len() - d0 {
            assert(dec_after.skip(d0)[i] == dec_after.take(dec_before.len() as int)[d0 + i]);
            assert(pre_after.skip(p0)[i] == pre_after.take(pre_before.len() as int)[p0 + i]);
            assert(dec_before.skip(d0)[i] == dec_before[d0 + i]);
            assert(pre_before.skip(p0)[i] == pre_before[p0 + i]);
        } else {
            let j = i - (dec_before.len() - d0);
            assert(dec_after.skip(dec_before.len() as int)[j] == dec_after.skip(d0)[i]);
            assert(pre_after.skip(pre_before.len() as int)[j] == pre_after.skip(p0)[i]);
        }
    }
}

/// Decisions recorded with valid entries are placed.
pub(crate) proof fn lemma_entered_placed(
    decisions: Seq<AssociationDecision>,
    d0: int,
    preassigned: Seq<((usize, u32), usize)>,
    p0: int,
    tracks: Seq<TrackBuilder>,
)
    requires
        0 <= d0 <= decisions.len(),
        0 <= p0 <= preassigned.len(),
        decisions_entered(decisions, d0, preassigned, p0),
        entries_valid(preassigned, tracks),
    ensures
        forall|i: int| d0 <= i < decisions.len() ==> decision_placed(tracks, #[trigger] decisions[i]),
{
    assert forall|i: int| d0 <= i < decisions.len() implies decision_placed(tracks, #[trigger] decisions[i]) by {
        let k = i - d0;
        assert(entry_decision(decisions.skip(d0)[k], preassigned.skip(p0)[k]));
        assert(decisions.skip(d0)[k] == decisions[i]);
        assert(preassigned.skip(p0)[k] == preassigned[p0 + k]);
    }
}

/// Decisions stay placed while their cels are kept.
pub(crate) proof fn lemma_placed_kept(decisions: Seq<AssociationDecision>, before: Seq<TrackBuilder>, after: Seq<TrackBuilder>, frame_count: usize)
    requires
        decisions_placed(before, decisions),
        cels_kept(before, after),
        tracks_wf(before, frame_count),
        tracks_wf(after, frame_count),
    ensures
        decisions_placed(after, decisions),
{
    assert forall|i: int| 0 <= i < decisions.len() implies decision_placed(after, #[trigger] decisions[i]) by {
        let d = decisions[i];
        assert(decision_placed(before, d));
        assert(before[d.track_id as int].cels@[d.frame_index as int] is Some);
        assert(after[d.track_id as int].cels@[d.frame_index as int] == before[d.track_id as int].cels@[d.frame_index as int]);
    }
}


pub open spec fn cels_kept(before: Seq<TrackBuilder>, after: Seq<TrackBuilder>) -> bool {
    &&& before.len() <= after.len()
    &&& forall|t: int, g: int| 0 <= t < before.len() && 0 <= g < before[t].cels@.len() && (#[trigger] before[t].cels@[g]) is Some
        ==> after[t].cels@[g] == before[t].cels@[g]
}

fn record_family_assignment(
    observation: &Observation,
    track_id: usize,
    tracks: &mut Vec<TrackBuilder>,
    decisions: &mut Vec<AssociationDecision>,
    preassigned: &mut Vec<((usize, u32), usize)>,
    metadata: AssignmentMetadata,
    status: AssociationDecisionStatus,
    candidates: &Vec<(usize, u16)>,
    selectors: &Vec<FrameContainerInfo>,
    instance_count: usize,
)
    requires
        track_id < old(tracks)@.len(),
        observation.frame_index < old(tracks)@[track_id as int].cels@.len(),
        observation.frame_index <= u32::MAX,
        metadata.margin <= metadata.score <= 100,
    ensures
        final(decisions)@.last().margin <= final(decisions)@.last().score <= 100,
        final(tracks)@.len() == old(tracks)@.len(),
        forall|u: int| 0 <= u < old(tracks)@.len() && u != track_id ==> #[trigger] final(tracks)@[u] == old(tracks)@[u],
        final(tracks)@[track_id as int].id == old(tracks)@[track_id as int].id,
        final(tracks)@[track_id as int].name_key == old(tracks)@[track_id as int].name_key,
        final(tracks)@[track_id as int].cels@ == old(tracks)@[track_id as int].cels@.update(observation.frame_index as int, Some(cel_of(*observation))),
        final(preassigned)@ == old(preassigned)@.push(((observation.frame_index, observation.source_layer_id), track_id)),
        final(decisions)@.len() == old(decisions)@.len() + 1,
        final(decisions)@.take(old(decisions)@.len() as int) == old(decisions)@,
        entry_decision(final(decisions)@.last(), final(preassigned)@.last()),
        final(decisions)@.last().same_frame_instance_count == instance_count,
{
    record_assignment(
        &mut tracks[track_id],
        observation,
        PlannedCel { source_layer_id: observation.source_layer_id, source_frame_index: observation.frame_index as u32, z_index: 0 },
    );
    preassigned.push(((observation.frame_index, observation.source_layer_id), track_id));
    let evidence = evidence_for(observation, &tracks[track_id], metadata.score, selectors);
    let alternatives = candidate_names(candidates, tracks, track_id);
    let mut made = decision(observation, track_id, status, metadata.score, metadata.margin, evidence, alternatives);
    made.association_phase = metadata.phase;
    made.same_frame_instance_count = instance_count;
    made.matching_tie = metadata.matching_tie;
    let exclusion = exclusion_evidence(observation, &tracks[track_id], selectors);
    made.exclusion_evidence = exclusion;
    made.same_frame_conflict = exclusion == AssociationExclusionKind::CoVisible;
    made.order_evidence_ignored = exclusion == AssociationExclusionKind::StructuralMutualExclusion;
    let ghost before = decisions@;
    decisions.push(made);
    assert(decisions@.take(before.len() as int) =~= before);
}

fn create_family_new_track(
    observation: &Observation,
    tracks: &mut Vec<TrackBuilder>,
    frame_count: usize,
    selectors: &Vec<FrameContainerInfo>,
    decisions: &mut Vec<AssociationDecision>,
    preassigned: &mut Vec<((usize, u32), usize)>,
    candidates: &Vec<(usize, u16)>,
    matching_tie: bool,
    instance_count: usize,
    conservative_multi_instance: bool,
)
    requires
        observation.frame_index < frame_count,
        observation.frame_index <= u32::MAX,
        forall|e: int| 0 <= e < candidates@.len() ==> (#[trigger] candidates@[e]).1 <= 100,
    ensures
        final(decisions)@.last().margin <= final(decisions)@.last().score <= 100,
        final(tracks)@.len() == old(tracks)@.len() + 1,
        forall|u: int| 0 <= u < old(tracks)@.len() ==> #[trigger] final(tracks)@[u] == old(tracks)@[u],
        final(tracks)@[old(tracks)@.len() as int].id == old(tracks)@.len(),
        final(tracks)@[old(tracks)@.len() as int].name_key == observation.name_key,
        final(tracks)@[old(tracks)@.len() as int].cels@
            == Seq::new(frame_count as nat, |i: int| None::<PlannedCel>).update(observation.frame_index as int, Some(cel_of(*observation))),
        final(preassigned)@ == old(preassigned)@.push(((observation.frame_index, observation.source_layer_id), old(tracks)@.len() as usize)),
        final(decisions)@.len() == old(decisions)@.len() + 1,
        final(decisions)@.take(old(decisions)@.len() as int) == old(decisions)@,
        entry_decision(final(decisions)@.last(), final(preassigned)@.last()),
        final(decisions)@.last().same_frame_instance_count == instance_count,
{
    let track_id = tracks.len();
    tracks.push(new_track(track_id, observation, frame_count));
    let status = if candidates.len() == 0 && !matching_tie {
        AssociationDecisionStatus::NewTrack
    } else {
        AssociationDecisionStatus::Ambiguous
    };
    let score: u16 = if candidates.len() > 0 { candidates[0].1 } else { 0 };
    let margin: u16 = if candidates.len() >= 2 {
        if candidates[0].1 >= candidates[1].1 { candidates[0].1 - candidates[1].1 } else { 0 }
    } else {
        0
    };
    let mut evidence: Vec<String> = Vec::new();
    evidence.push("family association created a separate track".to_owned());
    let alternatives = candidate_names(candidates, tracks, track_id);
    let mut made = decision(observation, track_id, status, score, margin, evidence, alternatives);
    made.association_phase = AssociationPhase::NewTrack;
    made.same_frame_instance_count = instance_count;
    made.matching_tie = matching_tie;
    let mut reasons = rejection_reasons(candidates, status, matching_tie, instance_count);
    if conservative_multi_instance {
        reasons.push("multi-instance family lacked exact identity evidence".to_owned());
    }
    made.rejection_reasons = reasons;
    made.exclusion_evidence = exclusion_evidence(observation, &tracks[track_id], selectors);
    let ghost before = decisions@;
    decisions.push(made);
    assert(decisions@.take(before.len() as int) =~= before);
    record_assignment(
        &mut tracks[track_id],
        observation,
        PlannedCel { source_layer_id: observation.source_layer_id, source_frame_index: observation.frame_index as u32, z_index: 0 },
    );
    preassigned.push(((observation.frame_index, observation.source_layer_id), track_id));
}

/// Whether a position names a specific-name observation of a family, outside the anchor
/// frame unless the anchor frame is included.
pub open spec fn family_member(frames: Seq<Vec<Observation>>, anchor_frame: usize, key: Seq<char>, include_anchor: bool, position: FrameObservation) -> bool {
    &&& position.0 < frames.len()
    &&& position.1 < frames[position.0 as int]@.len()
    &&& (!include_anchor ==> position.0 != anchor_frame)
    &&& !frames[position.0 as int]@[position.1 as int].generic_name
    &&& frames[position.0 as int]@[position.1 as int].name_key@ == key
}

/// Whether one position comes before another, by frame and then by index.
pub open spec fn position_before(a: FrameObservation, b: FrameObservation) -> bool {
    a.0 < b.0 || (a.0 == b.0 && a.1 < b.1)
}

/// The positions, by frame and index, of the specific-name observations of a family, every
/// frame in order and within a frame in order; the anchor frame only when asked for.
fn family_positions(frames: &Vec<Vec<Observation>>, anchor_frame: usize, key: &String, include_anchor: bool) -> (positions: Vec<FrameObservation>)
    ensures
        forall|p: int| 0 <= p < positions@.len() ==> family_member(frames@, anchor_frame, key@, include_anchor, #[trigger] positions@[p]),
        forall|p: int, q: int| 0 <= p < q < positions@.len() ==> position_before(#[trigger] positions@[p], #[trigger] positions@[q]),
        forall|x: FrameObservation| #[trigger] family_member(frames@, anchor_frame, key@, include_anchor, x) ==> positions@.contains(x),
{
    let mut positions: Vec<FrameObservation> = Vec::new();
    let mut f: usize = 0;
    while f < frames.len()
        invariant
            f <= frames@.len(),
            forall|p: int| 0 <= p < positions@.len() ==> family_member(frames@, anchor_frame, key@, include_anchor, #[trigger] positions@[p]),
            forall|p: int, q: int| 0 <= p < q < positions@.len() ==> position_before(#[trigger] positions@[p], #[trigger] positions@[q]),
            forall|p: int| 0 <= p < positions@.len() ==> (#[trigger] positions@[p]).0 < f,
            forall|x: FrameObservation| #[trigger] family_member(frames@, anchor_frame, key@, include_anchor, x) && x.0 < f ==> positions@.contains(x),
        decreases frames@.len() - f,
    {
        if include_anchor || f != anchor_frame {
            let frame = &frames[f];
            let mut i: usize = 0;
            while i < frame.len()
                invariant
                    f < frames@.len(),
                    frame@ == frames@[f as int]@,
                    include_anchor || f != anchor_frame,
                    i <= frame@.len(),
                    forall|p: int| 0 <= p < positions@.len() ==> family_member(frames@, anchor_frame, key@, include_anchor, #[trigger] positions@[p]),
                    forall|p: int, q: int| 0 <= p < q < positions@.len() ==> position_before(#[trigger] positions@[p], #[trigger] positions@[q]),
                    forall|p: int| 0 <= p < positions@.len() ==> position_before(#[trigger] positions@[p], (f, i)),
                    forall|x: FrameObservation| #[trigger] family_member(frames@, anchor_frame, key@, include_anchor, x) && (x.0 < f || (x.0 == f && x.1 < i)) ==> positions@.contains(x),
                decreases frame@.len() - i,
            {
                let ghost before = positions@;
                if !frame[i].generic_name && frame[i].name_key == *key {
                    positions.push((f, i));
                    proof {
                        assert(positions@[before.len() as int] == (f, i));
                        assert forall|x: FrameObservation| #[trigger] family_member(frames@, anchor_frame, key@, include_anchor, x) && (x.0 < f || (x.0 == f && x.1 < i + 1)) implies positions@.contains(x) by {
                            if x == (f, i) {
                                assert(positions@[before.len() as int] == x);
                            } else {
                                assert(before.contains(x));
                                let w = choose|w: int| 0 <= w < before.len() && before[w] == x;
                                assert(positions@[w] == x);
                            }
                        }
                        assert forall|p: int, q: int| 0 <= p < q < positions@.len() implies position_before(#[trigger] positions@[p], #[trigger] positions@[q]) by {
                            if q == before.len() {
                                assert(position_before(before[p], (f, i)));
                            } else {
                                assert(position_before(before[p], before[q]));
                            }
                        }
                    }
                }
                i = i + 1;
            }
        }
        f = f + 1;
    }
    positions
}

/// How many of the first `n` observations of a frame have a specific name of the family.
pub open spec fn instances_in(frame: Seq<Observation>, key: Seq<char>, n: int) -> nat
    decreases n,
{
    if n <= 0 {
        0
    } else {
        instances_in(frame, key, n - 1) + if !frame[n - 1].generic_name && frame[n - 1].name_key@ == key { 1nat } else { 0nat }
    }
}

/// The largest number of specific-name observations of a family in one of the first `n`
/// frames.
pub open spec fn most_instances(frames: Seq<Vec<Observation>>, key: Seq<char>, n: int) -> nat
    decreases n,
{
    if n <= 0 {
        0
    } else {
        let rest = most_instances(frames, key, n - 1);
        let here = instances_in(frames[n - 1]@, key, frames[n - 1]@.len() as int);
        if here > rest { here } else { rest }
    }
}

/// The number of specific-name observations of a family in its most crowded frame.
fn max_family_instances(frames: &Vec<Vec<Observation>>, key: &String) -> (count: usize)
    ensures
        count == most_instances(frames@, key@, frames@.len() as int),
{
    let mut best: usize = 0;
    let mut f: usize = 0;
    while f < frames.len()
        invariant
            f <= frames@.len(),
            best == most_instances(frames@, key@, f as int),
        decreases frames@.len() - f,
    {
        let frame = &frames[f];
        let mut count: usize = 0;
        let mut i: usize = 0;
        while i < frame.len()
            invariant
                i <= frame@.len(),
                frame@ == frames@[f as int]@,
                count <= i,
                count == instances_in(frame@, key@, i as int),
            decreases frame@.len() - i,
        {
            if !frame[i].generic_name && frame[i].name_key == *key {
                count = count + 1;
            }
            i = i + 1;
        }
        if count > best {
            best = count;
        }
        f = f + 1;
    }
    best
}

/// The tracks of a family: those whose specific name has the family's key.
fn family_track_ids(tracks: &Vec<TrackBuilder>, key: &String) -> (ids: Vec<usize>)
    ensures
        forall|e: int| 0 <= e < ids@.len() ==> #[trigger] ids@[e] < tracks@.len() && !tracks@[ids@[e] as int].generic_name
            && tracks@[ids@[e] as int].name_key@ == key@,
        forall|a: int, b: int| 0 <= a < b < ids@.len() ==> #[trigger] ids@[a] < #[trigger] ids@[b],
        forall|t: int| 0 <= t < tracks@.len() && !(#[trigger] tracks@[t]).generic_name && tracks@[t].name_key@ == key@ ==> ids@.contains(t as usize),
{
    let mut ids: Vec<usize> = Vec::new();
    let mut t: usize = 0;
    while t < tracks.len()
        invariant
            t <= tracks@.len(),
            forall|e: int| 0 <= e < ids@.len() ==> #[trigger] ids@[e] < t && !tracks@[ids@[e] as int].generic_name
                && tracks@[ids@[e] as int].name_key@ == key@,
            forall|a: int, b: int| 0 <= a < b < ids@.len() ==> #[trigger] ids@[a] < #[trigger] ids@[b],
            forall|u: int| 0 <= u < t && !(#[trigger] tracks@[u]).generic_name && tracks@[u].name_key@ == key@ ==> ids@.contains(u as usize),
        decreases tracks@.len() - t,
    {
        let ghost before = ids@;
        if !tracks[t].generic_name && tracks[t].name_key == *key {
            ids.push(t);
            proof {
                assert(ids@[before.len() as int] == t);
                assert forall|u: int| 0 <= u < t + 1 && !(#[trigger] tracks@[u]).generic_name && tracks@[u].name_key@ == key@ implies ids@.contains(u as usize) by {
                    if u < t {
                        let w = choose|w: int| 0 <= w < before.len() && before[w] == u as usize;
                        assert(ids@[w] == u as usize);
                    } else {
                        assert(ids@[before.len() as int] == u as usize);
                    }
                }
            }
        }
        t = t + 1;
    }
    ids
}

proof fn lemma_lookup_member(solution: Seq<(FrameObservation, usize)>, key: FrameObservation)
    ensures
        global_lookup(solution, key) matches Some(t) ==> exists|a: int| 0 <= a < solution.len() && solution[a] == (key, t),
    decreases solution.len(),
{
    if solution.len() > 0 && solution[0].0 != key {
        lemma_lookup_member(solution.drop_first(), key);
        if let Some(t) = global_lookup(solution, key) {
            let a = choose|a: int| 0 <= a < solution.drop_first().len() && solution.drop_first()[a] == (key, t);
            assert(solution[a + 1] == (key, t));
        }
    } else if solution.len() > 0 {
        assert(solution[0] == (key, solution[0].1));
    }
}

/// The track the family pass plans for the observation at family position `p`: its
/// locked track, or the one the best assignment gives it.
pub open spec fn planned_track(locked: Seq<Option<usize>>, assignments: Seq<(FrameObservation, usize)>, family: Seq<FrameObservation>, p: int) -> Option<usize> {
    match locked[p] {
        Some(t) => Some(t),
        None => global_lookup(assignments, (family[p].0, p as usize)),
    }
}

/// Whether every position names an observation of the frames.
pub open spec fn positions_wf(family: Seq<FrameObservation>, frames: Seq<Vec<Observation>>) -> bool {
    forall|p: int| 0 <= p < family.len() ==> (#[trigger] family[p]).0 < frames.len() && family[p].1 < frames[family[p].0 as int]@.len()
}

/// Whether every candidate of position `p` names a track with an empty cel slot in the
/// frame of `p`.
pub open spec fn candidates_open(candidates: Seq<Vec<(usize, u16)>>, family: Seq<FrameObservation>, tracks: Seq<TrackBuilder>) -> bool {
    &&& candidates.len() == family.len()
    &&& forall|p: int, e: int| 0 <= p < candidates.len() && 0 <= e < candidates[p]@.len() ==> {
        &&& (#[trigger] candidates[p]@[e]).0 < tracks.len()
        &&& tracks[candidates[p]@[e].0 as int].cels@[family[p].0 as int] is None
    }
}

/// The candidates of an observation in frame `f` among the first `n` family tracks, in
/// their order: those with an empty cel slot in the frame that score 40 or more.
pub open spec fn family_track_list(
    frame: Seq<Observation>,
    observation: Observation,
    tracks: Seq<TrackBuilder>,
    family_tracks: Seq<usize>,
    f: int,
    selectors: Seq<FrameContainerInfo>,
    n: int,
) -> Seq<(usize, u16)>
    decreases n,
{
    if n <= 0 {
        Seq::empty()
    } else {
        let rest = family_track_list(frame, observation, tracks, family_tracks, f, selectors, n - 1);
        let t = family_tracks[n - 1] as int;
        if tracks[t].cels@[f] is None && candidate_score_of(observation, tracks[t], frame, selectors) >= 40 {
            rest.push((t as usize, candidate_score_of(observation, tracks[t], frame, selectors) as u16))
        } else {
            rest
        }
    }
}

fn family_candidates(
    family: &Vec<FrameObservation>,
    frames: &Vec<Vec<Observation>>,
    tracks: &Vec<TrackBuilder>,
    family_tracks: &Vec<usize>,
    selectors: &Vec<FrameContainerInfo>,
    frame_count: usize,
) -> (candidates: Vec<Vec<(usize, u16)>>)
    requires
        positions_wf(family@, frames@),
        frames_wf(frames@, frame_count),
        tracks_wf(tracks@, frame_count),
        forall|e: int| 0 <= e < family_tracks@.len() ==> #[trigger] family_tracks@[e] < tracks@.len(),
    ensures
        candidates_open(candidates@, family@, tracks@),
        forall|p: int, e: int| 0 <= p < candidates@.len() && 0 <= e < candidates@[p]@.len() ==> family_tracks@.contains((#[trigger] candidates@[p]@[e]).0),
        forall|p: int| 0 <= p < candidates@.len() ==> (#[trigger] candidates@[p])@ == family_track_list(frames@[family@[p].0 as int]@,
            frames@[family@[p].0 as int]@[family@[p].1 as int], tracks@, family_tracks@, family@[p].0 as int, selectors@, family_tracks@.len() as int)
            .sort_by(candidate_order()),
{
    let mut candidates: Vec<Vec<(usize, u16)>> = Vec::new();
    let mut p: usize = 0;
    while p < family.len()
        invariant
            positions_wf(family@, frames@),
            frames_wf(frames@, frame_count),
            tracks_wf(tracks@, frame_count),
            forall|e: int| 0 <= e < family_tracks@.len() ==> #[trigger] family_tracks@[e] < tracks@.len(),
            p <= family@.len(),
            candidates@.len() == p,
            forall|q: int, e: int| 0 <= q < p && 0 <= e < candidates@[q]@.len() ==> {
                &&& (#[trigger] candidates@[q]@[e]).0 < tracks@.len()
                &&& tracks@[candidates@[q]@[e].0 as int].cels@[family@[q].0 as int] is None
            },
            forall|q: int| 0 <= q < p ==> (#[trigger] candidates@[q])@ == family_track_list(frames@[family@[q].0 as int]@,
                frames@[family@[q].0 as int]@[family@[q].1 as int], tracks@, family_tracks@, family@[q].0 as int, selectors@, family_tracks@.len() as int)
                .sort_by(candidate_order()),
            forall|q: int, e: int| 0 <= q < p && 0 <= e < candidates@[q]@.len() ==> family_tracks@.contains((#[trigger] candidates@[q]@[e]).0),
        decreases family@.len() - p,
    {
        let (f, i) = family[p];
        let frame = &frames[f];
        let observation = &frame[i];
        let mut list: Vec<(usize, u16)> = Vec::new();
        let mut e: usize = 0;
        while e < family_tracks.len()
            invariant
                f < frames@.len(),
                f < frame_count,
                tracks_wf(tracks@, frame_count),
                forall|x: int| 0 <= x < family_tracks@.len() ==> #[trigger] family_tracks@[x] < tracks@.len(),
                e <= family_tracks@.len(),
                forall|x: int| 0 <= x < list@.len() ==> (#[trigger] list@[x]).0 < tracks@.len() && tracks@[list@[x].0 as int].cels@[f as int] is None,
                frame@ == frames@[f as int]@,
                i < frame@.len(),
                *observation == frame@[i as int],
                list@ == family_track_list(frame@, *observation, tracks@, family_tracks@, f as int, selectors@, e as int),
                forall|x: int| 0 <= x < list@.len() ==> family_tracks@.contains((#[trigger] list@[x]).0),
            decreases family_tracks@.len() - e,
        {
            let track_id = family_tracks[e];
            assert(tracks@[track_id as int].cels@.len() == frame_count);
            if tracks[track_id].cels[f].is_none() {
                let score = candidate_score(observation, &tracks[track_id], frame, selectors);
                if score >= 40 {
                    let ghost before_list = list@;
                    list.push((track_id, score));
                    proof {
                        assert(family_tracks@[e as int] == track_id);
                        assert forall|x: int| 0 <= x < list@.len() implies family_tracks@.contains((#[trigger] list@[x]).0) by {
                            if x < before_list.len() {
                                assert(list@[x] == before_list[x]);
                            }
                        }
                    }
                }
            }
            e = e + 1;
        }
        let ghost unsorted = list@;
        let sorted = sort_candidates(list);
        proof {
            broadcast use vstd::multiset::group_multiset_axioms;
            assert forall|x: int| 0 <= x < sorted@.len() implies (#[trigger] sorted@[x]).0 < tracks@.len() && tracks@[sorted@[x].0 as int].cels@[f as int] is None by {
                vstd::seq_lib::to_multiset_contains(sorted@, sorted@[x]);
                assert(sorted@.contains(sorted@[x]));
                vstd::seq_lib::to_multiset_contains(unsorted, sorted@[x]);
                let w = choose|w: int| 0 <= w < unsorted.len() && unsorted[w] == sorted@[x];
                assert(unsorted[w] == sorted@[x]);
            }
            assert forall|x: int| 0 <= x < sorted@.len() implies family_tracks@.contains((#[trigger] sorted@[x]).0) by {
                vstd::seq_lib::to_multiset_contains(sorted@, sorted@[x]);
                assert(sorted@.contains(sorted@[x]));
                vstd::seq_lib::to_multiset_contains(unsorted, sorted@[x]);
                let w = choose|w: int| 0 <= w < unsorted.len() && unsorted[w] == sorted@[x];
                assert(unsorted[w] == sorted@[x]);
            }
        }
        let ghost before = candidates@;
        candidates.push(sorted);
        proof {
            assert forall|q: int| 0 <= q < p + 1 implies (#[trigger] candidates@[q])@ == family_track_list(frames@[family@[q].0 as int]@,
                frames@[family@[q].0 as int]@[family@[q].1 as int], tracks@, family_tracks@, family@[q].0 as int, selectors@, family_tracks@.len() as int)
                .sort_by(candidate_order()) by {
                if q < p {
                    assert(candidates@[q] == before[q]);
                }
            }
            assert forall|q: int, e: int| 0 <= q < p + 1 && 0 <= e < candidates@[q]@.len() implies family_tracks@.contains((#[trigger] candidates@[q]@[e]).0) by {
                if q < p {
                    assert(candidates@[q] == before[q]);
                }
            }
        }
        p = p + 1;
    }
    candidates
}

/// Whether a list holds a track as one of its entries.
pub open spec fn lists_track(list: Seq<(usize, u16)>, track: usize) -> bool {
    exists|e: int| 0 <= e < list.len() && (#[trigger] list[e]).0 == track
}

/// Whether the locked tracks are candidates of their positions, their slots are listed in
/// `slots`, and no two positions lock one frame and track slot.
pub open spec fn locks_wf(locked: Seq<Option<usize>>, slots: Seq<(usize, usize)>, family: Seq<FrameObservation>, candidates: Seq<Vec<(usize, u16)>>) -> bool {
    &&& locked.len() <= family.len()
    &&& forall|p: int| 0 <= p < locked.len() && (#[trigger] locked[p]) is Some ==> {
        &&& lists_track(candidates[p]@, locked[p]->0)
        &&& slots.contains((family[p].0, locked[p]->0))
    }
    &&& forall|p: int, q: int| 0 <= p < locked.len() && 0 <= q < locked.len() && p != q
        && (#[trigger] locked[p]) is Some && (#[trigger] locked[q]) is Some
        ==> (family[p].0, locked[p]->0) != (family[q].0, locked[q]->0)
}

/// The tracks among the first `n` candidates that already hold observations and carry the
/// exact normalized name, in candidate order.
pub open spec fn exact_tracks(list: Seq<(usize, u16)>, tracks: Seq<TrackBuilder>, name: Seq<char>, n: int) -> Seq<usize>
    decreases n,
{
    if n <= 0 {
        Seq::empty()
    } else {
        let rest = exact_tracks(list, tracks, name, n - 1);
        let t = list[n - 1].0;
        if tracks[t as int].observations@.len() > 0 && tracks[t as int].normalized_name@ == name { rest.push(t) } else { rest }
    }
}

/// The exact-name tracks of family position `p`.
pub open spec fn position_exact(family: Seq<FrameObservation>, frames: Seq<Vec<Observation>>, tracks: Seq<TrackBuilder>, candidates: Seq<Vec<(usize, u16)>>, p: int) -> Seq<usize> {
    exact_tracks(candidates[p]@, tracks, frames[family[p].0 as int]@[family[p].1 as int].normalized_name@, candidates[p]@.len() as int)
}

/// Whether a position before `p` locked track `t` in frame `f`.
pub open spec fn locked_before(locked: Seq<Option<usize>>, family: Seq<FrameObservation>, p: int, f: usize, t: usize) -> bool {
    exists|q: int| 0 <= q < p && #[trigger] locked[q] == Some(t) && family[q].0 == f
}

fn lock_exact_names(
    family: &Vec<FrameObservation>,
    frames: &Vec<Vec<Observation>>,
    tracks: &Vec<TrackBuilder>,
    candidates: &Vec<Vec<(usize, u16)>>,
) -> (locks: (Vec<Option<usize>>, Vec<(usize, usize)>))
    requires
        positions_wf(family@, frames@),
        candidates_open(candidates@, family@, tracks@),
    ensures
        locks.0@.len() == family@.len(),
        locks_wf(locks.0@, locks.1@, family@, candidates@),
        forall|p: int| 0 <= p < family@.len() ==> #[trigger] locks.0@[p] == ({
            let exact = position_exact(family@, frames@, tracks@, candidates@, p);
            if exact.len() == 1 && !locked_before(locks.0@, family@, p, family@[p].0, exact[0]) { Some(exact[0]) } else { None }
        }),
        forall|slot: (usize, usize)| #[trigger] locks.1@.contains(slot) <==> locked_before(locks.0@, family@, family@.len() as int, slot.0, slot.1),
{
    let mut locked: Vec<Option<usize>> = Vec::new();
    let mut slots: Vec<(usize, usize)> = Vec::new();
    let mut p: usize = 0;
    while p < family.len()
        invariant
            positions_wf(family@, frames@),
            candidates_open(candidates@, family@, tracks@),
            p <= family@.len(),
            locked@.len() == p,
            locks_wf(locked@, slots@, family@, candidates@),
            forall|q: int| 0 <= q < p ==> #[trigger] locked@[q] == ({
                let exact = position_exact(family@, frames@, tracks@, candidates@, q);
                if exact.len() == 1 && !locked_before(locked@, family@, q, family@[q].0, exact[0]) { Some(exact[0]) } else { None }
            }),
            forall|slot: (usize, usize)| #[trigger] slots@.contains(slot) <==> locked_before(locked@, family@, p as int, slot.0, slot.1),
        decreases family@.len() - p,
    {
        let (f, i) = family[p];
        let observation = &frames[f][i];
        let list = &candidates[p];
        let mut exact: Vec<usize> = Vec::new();
        let mut e: usize = 0;
        while e < list.len()
            invariant
                candidates_open(candidates@, family@, tracks@),
                p < family@.len(),
                list@ == candidates@[p as int]@,
                e <= list@.len(),
                forall|x: int| 0 <= x < exact@.len() ==> lists_track(list@, #[trigger] exact@[x]),
                *observation == frames@[family@[p as int].0 as int]@[family@[p as int].1 as int],
                exact@ == exact_tracks(list@, tracks@, observation.normalized_name@, e as int),
            decreases list@.len() - e,
        {
            let track_id = list[e].0;
            assert(list@[e as int].0 < tracks@.len());
            if tracks[track_id].observations.len() > 0 && tracks[track_id].normalized_name == observation.normalized_name {
                assert(lists_track(list@, track_id));
                exact.push(track_id);
            }
            e = e + 1;
        }
        let ghost before_locked = locked@;
        let ghost before_slots = slots@;
        if exact.len() == 1 && !contains_frame_slot(&slots, (f, exact[0])) {
            let track_id = exact[0];
            assert(lists_track(list@, exact@[0]));
            slots.push((f, track_id));
            locked.push(Some(track_id));
            proof {
                lemma_locks_step(before_locked, before_slots, locked@, slots@, family@, frames@, tracks@, candidates@, p as int);
                assert forall|q: int| 0 <= q < locked@.len() && (#[trigger] locked@[q]) is Some implies {
                    &&& lists_track(candidates@[q]@, locked@[q]->0)
                    &&& slots@.contains((family@[q].0, locked@[q]->0))
                } by {
                    if q < p {
                        assert(locked@[q] == before_locked[q]);
                        assert(before_slots.contains((family@[q].0, locked@[q]->0)));
                        let x = choose|x: int| 0 <= x < before_slots.len() && before_slots[x] == (family@[q].0, locked@[q]->0);
                        assert(slots@[x] == before_slots[x]);
                    } else {
                        assert(slots@[before_slots.len() as int] == (f, track_id));
                    }
                }
                assert forall|q: int, r: int| 0 <= q < locked@.len() && 0 <= r < locked@.len() && q != r
                    && (#[trigger] locked@[q]) is Some && (#[trigger] locked@[r]) is Some
                    implies (family@[q].0, locked@[q]->0) != (family@[r].0, locked@[r]->0) by {
                    if q == p {
                        assert(before_locked[r] is Some);
                        assert(before_slots.contains((family@[r].0, before_locked[r]->0)));
                    } else if r == p {
                        assert(before_locked[q] is Some);
                        assert(before_slots.contains((family@[q].0, before_locked[q]->0)));
                    } else {
                        assert(before_locked[q] is Some && before_locked[r] is Some);
                    }
                }
            }
        } else {
            locked.push(None);
            proof {
                lemma_locks_step(before_locked, before_slots, locked@, slots@, family@, frames@, tracks@, candidates@, p as int);
                assert forall|q: int| 0 <= q < locked@.len() && (#[trigger] locked@[q]) is Some implies {
                    &&& lists_track(candidates@[q]@, locked@[q]->0)
                    &&& slots@.contains((family@[q].0, locked@[q]->0))
                } by {
                    assert(locked@[q] == before_locked[q]);
                }
                assert forall|q: int, r: int| 0 <= q < locked@.len() && 0 <= r < locked@.len() && q != r
                    && (#[trigger] locked@[q]) is Some && (#[trigger] locked@[r]) is Some
                    implies (family@[q].0, locked@[q]->0) != (family@[r].0, locked@[r]->0) by {
                    assert(locked@[q] == before_locked[q]);
                    assert(locked@[r] == before_locked[r]);
                }
            }
        }
        p = p + 1;
    }
    (locked, slots)
}

proof fn lemma_locks_step(
    before_locked: Seq<Option<usize>>,
    before_slots: Seq<(usize, usize)>,
    locked: Seq<Option<usize>>,
    slots: Seq<(usize, usize)>,
    family: Seq<FrameObservation>,
    frames: Seq<Vec<Observation>>,
    tracks: Seq<TrackBuilder>,
    candidates: Seq<Vec<(usize, u16)>>,
    p: int,
)
    requires
        0 <= p < family.len(),
        before_locked.len() == p,
        locked.len() == p + 1,
        forall|q: int| 0 <= q < p ==> #[trigger] locked[q] == before_locked[q],
        forall|q: int| 0 <= q < p ==> #[trigger] before_locked[q] == ({
            let exact = position_exact(family, frames, tracks, candidates, q);
            if exact.len() == 1 && !locked_before(before_locked, family, q, family[q].0, exact[0]) { Some(exact[0]) } else { None }
        }),
        forall|slot: (usize, usize)| #[trigger] before_slots.contains(slot) <==> locked_before(before_locked, family, p, slot.0, slot.1),
        locked[p] == ({
            let exact = position_exact(family, frames, tracks, candidates, p);
            if exact.len() == 1 && !before_slots.contains((family[p].0, exact[0])) { Some(exact[0]) } else { None }
        }),
        locked[p] matches Some(t) ==> slots == before_slots.push((family[p].0, t)),
        locked[p] is None ==> slots == before_slots,
    ensures
        forall|q: int| 0 <= q < p + 1 ==> #[trigger] locked[q] == ({
            let exact = position_exact(family, frames, tracks, candidates, q);
            if exact.len() == 1 && !locked_before(locked, family, q, family[q].0, exact[0]) { Some(exact[0]) } else { None }
        }),
        forall|slot: (usize, usize)| #[trigger] slots.contains(slot) <==> locked_before(locked, family, p + 1, slot.0, slot.1),
{
    assert forall|q: int, f: usize, t: usize| 0 <= q <= p implies locked_before(locked, family, q, f, t) == locked_before(before_locked, family, q, f, t) by {
        if locked_before(locked, family, q, f, t) {
            let w = choose|w: int| 0 <= w < q && #[trigger] locked[w] == Some(t) && family[w].0 == f;
            assert(before_locked[w] == Some(t));
        }
        if locked_before(before_locked, family, q, f, t) {
            let w = choose|w: int| 0 <= w < q && #[trigger] before_locked[w] == Some(t) && family[w].0 == f;
            assert(locked[w] == Some(t));
        }
    }
    assert forall|q: int| 0 <= q < p + 1 implies #[trigger] locked[q] == ({
        let exact = position_exact(family, frames, tracks, candidates, q);
        if exact.len() == 1 && !locked_before(locked, family, q, family[q].0, exact[0]) { Some(exact[0]) } else { None }
    }) by {
        let exact = position_exact(family, frames, tracks, candidates, q);
        if q < p {
            assert(locked[q] == before_locked[q]);
        } else if exact.len() == 1 {
            assert(before_slots.contains((family[p].0, exact[0])) == locked_before(before_locked, family, p, family[p].0, exact[0]));
        }
    }
    assert forall|slot: (usize, usize)| #[trigger] slots.contains(slot) <==> locked_before(locked, family, p + 1, slot.0, slot.1) by {
        if locked_before(locked, family, p + 1, slot.0, slot.1) {
            let w = choose|w: int| 0 <= w < p + 1 && #[trigger] locked[w] == Some(slot.1) && family[w].0 == slot.0;
            if w < p {
                assert(locked_before(before_locked, family, p, slot.0, slot.1)) by {
                    assert(before_locked[w] == Some(slot.1));
                }
                assert(before_slots.contains(slot));
                let x = choose|x: int| 0 <= x < before_slots.len() && before_slots[x] == slot;
                assert(slots[x] == slot);
            } else {
                assert(slots[before_slots.len() as int] == slot);
            }
        }
        if slots.contains(slot) {
            let x = choose|x: int| 0 <= x < slots.len() && slots[x] == slot;
            if x < before_slots.len() {
                assert(before_slots[x] == slot);
                assert(before_slots.contains(slot));
                let w = choose|w: int| 0 <= w < p && #[trigger] before_locked[w] == Some(slot.1) && family[w].0 == slot.0;
                assert(locked[w] == Some(slot.1));
            } else {
                assert(locked[p] is Some);
                assert(locked[p] == Some(slot.1) && family[p].0 == slot.0);
            }
        }
    }
}

fn contains_frame_slot(slots: &Vec<(usize, usize)>, slot: (usize, usize)) -> (found: bool)
    ensures
        found == slots@.contains(slot),
{
    let mut i: usize = 0;
    while i < slots.len()
        invariant
            i <= slots@.len(),
            forall|k: int| 0 <= k < i ==> slots@[k] != slot,
        decreases slots@.len() - i,
    {
        if slots[i].0 == slot.0 && slots[i].1 == slot.1 {
            assert(slots@[i as int] == slot);
            return true;
        }
        i = i + 1;
    }
    false
}

/// Whether `retained` keeps, for each position, only candidates of that position whose
/// frame and track slot is not locked.
pub open spec fn retained_wf(retained: Seq<Vec<(usize, u16)>>, candidates: Seq<Vec<(usize, u16)>>, slots: Seq<(usize, usize)>, family: Seq<FrameObservation>) -> bool {
    &&& retained.len() == candidates.len()
    &&& forall|p: int, e: int| 0 <= p < retained.len() && 0 <= e < retained[p]@.len() ==> {
        &&& lists_track(candidates[p]@, (#[trigger] retained[p]@[e]).0)
        &&& !slots.contains((family[p].0, retained[p]@[e].0))
    }
}

/// The first `n` entries of a list whose frame and track slot is not locked, in order.
pub open spec fn unlocked_entries(list: Seq<(usize, u16)>, slots: Seq<(usize, usize)>, frame: usize, n: int) -> Seq<(usize, u16)>
    decreases n,
{
    if n <= 0 {
        Seq::empty()
    } else {
        let rest = unlocked_entries(list, slots, frame, n - 1);
        if !slots.contains((frame, list[n - 1].0)) { rest.push(list[n - 1]) } else { rest }
    }
}

proof fn lemma_unlocked_bounded(list: Seq<(usize, u16)>, slots: Seq<(usize, usize)>, frame: usize, n: int)
    requires
        n <= list.len(),
        forall|e: int| 0 <= e < list.len() ==> (#[trigger] list[e]).1 <= 100,
    ensures
        forall|e: int| 0 <= e < unlocked_entries(list, slots, frame, n).len() ==> (#[trigger] unlocked_entries(list, slots, frame, n)[e]).1 <= 100,
    decreases n,
{
    if n > 0 {
        lemma_unlocked_bounded(list, slots, frame, n - 1);
        let rest = unlocked_entries(list, slots, frame, n - 1);
        let now = unlocked_entries(list, slots, frame, n);
        assert forall|e: int| 0 <= e < now.len() implies (#[trigger] now[e]).1 <= 100 by {
            if e < rest.len() {
                assert(now[e] == rest[e]);
            }
        }
    }
}

proof fn lemma_family_track_list_bounded(
    frame: Seq<Observation>,
    observation: Observation,
    tracks: Seq<TrackBuilder>,
    family_tracks: Seq<usize>,
    f: int,
    selectors: Seq<FrameContainerInfo>,
    n: int,
)
    ensures
        forall|e: int| 0 <= e < family_track_list(frame, observation, tracks, family_tracks, f, selectors, n).len()
            ==> (#[trigger] family_track_list(frame, observation, tracks, family_tracks, f, selectors, n)[e]).1 <= 100,
    decreases n,
{
    if n > 0 {
        lemma_family_track_list_bounded(frame, observation, tracks, family_tracks, f, selectors, n - 1);
        let rest = family_track_list(frame, observation, tracks, family_tracks, f, selectors, n - 1);
        let now = family_track_list(frame, observation, tracks, family_tracks, f, selectors, n);
        assert forall|e: int| 0 <= e < now.len() implies (#[trigger] now[e]).1 <= 100 by {
            if e < rest.len() {
                assert(now[e] == rest[e]);
            }
        }
    }
}

fn retain_unlocked(candidates: &Vec<Vec<(usize, u16)>>, slots: &Vec<(usize, usize)>, family: &Vec<FrameObservation>) -> (retained: Vec<Vec<(usize, u16)>>)
    requires
        candidates@.len() == family@.len(),
    ensures
        retained_wf(retained@, candidates@, slots@, family@),
        forall|p: int| 0 <= p < retained@.len() ==> (#[trigger] retained@[p])@ == unlocked_entries(candidates@[p]@, slots@, family@[p].0, candidates@[p]@.len() as int),
{
    let mut retained: Vec<Vec<(usize, u16)>> = Vec::new();
    let mut p: usize = 0;
    while p < candidates.len()
        invariant
            candidates@.len() == family@.len(),
            p <= candidates@.len(),
            retained@.len() == p,
            forall|q: int, e: int| 0 <= q < p && 0 <= e < retained@[q]@.len() ==> {
                &&& lists_track(candidates@[q]@, (#[trigger] retained@[q]@[e]).0)
                &&& !slots@.contains((family@[q].0, retained@[q]@[e].0))
            },
            forall|q: int| 0 <= q < p ==> (#[trigger] retained@[q])@ == unlocked_entries(candidates@[q]@, slots@, family@[q].0, candidates@[q]@.len() as int),
        decreases candidates@.len() - p,
    {
        let list = &candidates[p];
        let frame = family[p].0;
        let mut kept: Vec<(usize, u16)> = Vec::new();
        let mut e: usize = 0;
        while e < list.len()
            invariant
                p < candidates@.len(),
                p < family@.len(),
                frame == family@[p as int].0,
                list@ == candidates@[p as int]@,
                e <= list@.len(),
                forall|x: int| 0 <= x < kept@.len() ==> lists_track(list@, (#[trigger] kept@[x]).0) && !slots@.contains((frame, kept@[x].0)),
                kept@ == unlocked_entries(list@, slots@, frame, e as int),
            decreases list@.len() - e,
        {
            let entry = list[e];
            if !contains_frame_slot(slots, (frame, entry.0)) {
                assert(lists_track(list@, list@[e as int].0));
                kept.push(entry);
            }
            e = e + 1;
        }
        let ghost before = retained@;
        retained.push(kept);
        proof {
            assert forall|q: int| 0 <= q < p + 1 implies (#[trigger] retained@[q])@ == unlocked_entries(candidates@[q]@, slots@, family@[q].0, candidates@[q]@.len() as int) by {
                if q < p {
                    assert(retained@[q] == before[q]);
                }
            }
        }
        p = p + 1;
    }
    retained
}

fn copy_candidates(source: &Vec<(usize, u16)>) -> (copy: Vec<(usize, u16)>)
    ensures
        copy@ == source@,
{
    let mut copy: Vec<(usize, u16)> = Vec::new();
    let mut i: usize = 0;
    while i < source.len()
        invariant
            i <= source@.len(),
            copy@ == source@.take(i as int),
        decreases source@.len() - i,
    {
        copy.push(source[i]);
        assert(source@.take(i as int + 1) == source@.take(i as int).push(source@[i as int]));
        i = i + 1;
    }
    assert(source@.take(i as int) == source@);
    copy
}

/// Whether the observations handed to the search across frames are the unlocked family
/// positions, keyed by frame and position, each with its retained candidates.
pub open spec fn matching_inputs_wf(
    keys: Seq<FrameObservation>,
    lists: Seq<Vec<(usize, u16)>>,
    family: Seq<FrameObservation>,
    locked: Seq<Option<usize>>,
    retained: Seq<Vec<(usize, u16)>>,
) -> bool {
    &&& keys.len() == lists.len()
    &&& forall|q: int| 0 <= q < keys.len() ==> {
        &&& (#[trigger] keys[q]).1 < family.len()
        &&& keys[q].0 == family[keys[q].1 as int].0
        &&& locked[keys[q].1 as int] is None
        &&& lists[q]@ == retained[keys[q].1 as int]@
    }
}

fn matching_inputs(family: &Vec<FrameObservation>, locked: &Vec<Option<usize>>, retained: &Vec<Vec<(usize, u16)>>) -> (inputs: (Vec<FrameObservation>, Vec<Vec<(usize, u16)>>))
    requires
        locked@.len() == family@.len(),
        retained@.len() == family@.len(),
    ensures
        matching_inputs_wf(inputs.0@, inputs.1@, family@, locked@, retained@),
        forall|a: int, b: int| 0 <= a < b < inputs.0@.len() ==> (#[trigger] inputs.0@[a]).1 < (#[trigger] inputs.0@[b]).1,
        forall|p: int| 0 <= p < family@.len() && (#[trigger] locked@[p]) is None ==> exists|q: int| 0 <= q < inputs.0@.len() && #[trigger] inputs.0@[q].1 == p,
{
    let mut keys: Vec<FrameObservation> = Vec::new();
    let mut lists: Vec<Vec<(usize, u16)>> = Vec::new();
    let mut p: usize = 0;
    while p < family.len()
        invariant
            locked@.len() == family@.len(),
            retained@.len() == family@.len(),
            p <= family@.len(),
            matching_inputs_wf(keys@, lists@, family@, locked@, retained@),
            forall|q: int| 0 <= q < keys@.len() ==> (#[trigger] keys@[q]).1 < p,
            forall|a: int, b: int| 0 <= a < b < keys@.len() ==> (#[trigger] keys@[a]).1 < (#[trigger] keys@[b]).1,
            forall|x: int| 0 <= x < p && (#[trigger] locked@[x]) is None ==> exists|q: int| 0 <= q < keys@.len() && #[trigger] keys@[q].1 == x,
        decreases family@.len() - p,
    {
        let ghost before = keys@;
        if locked[p].is_none() {
            keys.push((family[p].0, p));
            lists.push(copy_candidates(&retained[p]));
            proof {
                assert(keys@[before.len() as int].1 == p);
                assert forall|x: int| 0 <= x < p + 1 && (#[trigger] locked@[x]) is None implies exists|q: int| 0 <= q < keys@.len() && #[trigger] keys@[q].1 == x by {
                    if x < p {
                        let q = choose|q: int| 0 <= q < before.len() && #[trigger] before[q].1 == x;
                        assert(keys@[q] == before[q]);
                    } else {
                        assert(keys@[before.len() as int].1 == x);
                    }
                }
            }
        }
        p = p + 1;
    }
    (keys, lists)
}

proof fn lemma_planned_slots(
    family: Seq<FrameObservation>,
    locked: Seq<Option<usize>>,
    slots: Seq<(usize, usize)>,
    candidates: Seq<Vec<(usize, u16)>>,
    retained: Seq<Vec<(usize, u16)>>,
    keys: Seq<FrameObservation>,
    lists: Seq<Vec<(usize, u16)>>,
    assignments: Seq<(FrameObservation, usize)>,
    tracks: Seq<TrackBuilder>,
)
    requires
        family.len() <= usize::MAX,
        candidates_open(candidates, family, tracks),
        locked.len() == family.len(),
        locks_wf(locked, slots, family, candidates),
        retained_wf(retained, candidates, slots, family),
        matching_inputs_wf(keys, lists, family, locked, retained),
        slot_one_to_one(assignments, keys, views(lists)),
    ensures
        forall|p: int| 0 <= p < family.len() && (#[trigger] planned_track(locked, assignments, family, p)) is Some ==> {
            let t = planned_track(locked, assignments, family, p)->0;
            &&& t < tracks.len()
            &&& tracks[t as int].cels@[family[p].0 as int] is None
            &&& locked[p] is None ==> !slots.contains((family[p].0, t))
            &&& lists_track(candidates[p]@, t)
        },
        forall|p: int, q: int| 0 <= p < family.len() && 0 <= q < family.len() && p != q
            && (#[trigger] planned_track(locked, assignments, family, p)) is Some
            && (#[trigger] planned_track(locked, assignments, family, q)) is Some
            ==> (family[p].0, planned_track(locked, assignments, family, p)->0) != (family[q].0, planned_track(locked, assignments, family, q)->0),
{
    assert forall|p: int| 0 <= p < family.len() && (#[trigger] planned_track(locked, assignments, family, p)) is Some implies {
        let t = planned_track(locked, assignments, family, p)->0;
        &&& t < tracks.len()
        &&& tracks[t as int].cels@[family[p].0 as int] is None
        &&& locked[p] is None ==> !slots.contains((family[p].0, t))
        &&& lists_track(candidates[p]@, t)
    } by {
        let t = planned_track(locked, assignments, family, p)->0;
        if locked[p] is Some {
            assert(lists_track(candidates[p]@, t));
            let e = choose|e: int| 0 <= e < candidates[p]@.len() && (#[trigger] candidates[p]@[e]).0 == t;
            assert(candidates[p]@[e].0 < tracks.len());
        } else {
            let key = (family[p].0, p as usize);
            lemma_lookup_member(assignments, key);
            let a = choose|a: int| 0 <= a < assignments.len() && assignments[a] == (key, t);
            assert(has_global_candidate(keys, views(lists), assignments[a]));
            let (q, j) = choose|q: int, j: int| 0 <= q < keys.len() && keys[q] == assignments[a].0 && 0 <= j < position_list(views(lists), q).len()
                && (#[trigger] position_list(views(lists), q)[j]).0 == assignments[a].1;
            assert(keys[q].1 == p);
            assert(position_list(views(lists), q) == lists[q]@);
            assert(lists[q]@ == retained[p]@);
            assert(retained[p]@[j].0 == t);
            assert(lists_track(candidates[p]@, retained[p]@[j].0));
            let e = choose|e: int| 0 <= e < candidates[p]@.len() && (#[trigger] candidates[p]@[e]).0 == t;
            assert(candidates[p]@[e].0 < tracks.len());
        }
    }
    assert forall|p: int, q: int| 0 <= p < family.len() && 0 <= q < family.len() && p != q
        && (#[trigger] planned_track(locked, assignments, family, p)) is Some
        && (#[trigger] planned_track(locked, assignments, family, q)) is Some
        implies (family[p].0, planned_track(locked, assignments, family, p)->0) != (family[q].0, planned_track(locked, assignments, family, q)->0) by {
        let tp = planned_track(locked, assignments, family, p)->0;
        let tq = planned_track(locked, assignments, family, q)->0;
        if locked[p] is Some && locked[q] is Some {
        } else if locked[p] is Some {
            assert(slots.contains((family[p].0, tp)));
            assert(!slots.contains((family[q].0, tq)));
        } else if locked[q] is Some {
            assert(slots.contains((family[q].0, tq)));
            assert(!slots.contains((family[p].0, tp)));
        } else {
            let kp = (family[p].0, p as usize);
            let kq = (family[q].0, q as usize);
            lemma_lookup_member(assignments, kp);
            lemma_lookup_member(assignments, kq);
            let a = choose|a: int| 0 <= a < assignments.len() && assignments[a] == (kp, tp);
            let b = choose|b: int| 0 <= b < assignments.len() && assignments[b] == (kq, tq);
            assert(a != b);
            if a < b {
                assert((assignments[a].0.0, assignments[a].1) != (assignments[b].0.0, assignments[b].1));
            } else {
                assert((assignments[b].0.0, assignments[b].1) != (assignments[a].0.0, assignments[a].1));
            }
        }
    }
}

fn tied_contains(tied: &Vec<FrameObservation>, key: FrameObservation) -> (found: bool)
    ensures
        found == tied@.contains(key),
{
    let mut i: usize = 0;
    while i < tied.len()
        invariant
            i <= tied@.len(),
            forall|k: int| 0 <= k < i ==> tied@[k] != key,
        decreases tied@.len() - i,
    {
        if tied[i].0 == key.0 && tied[i].1 == key.1 {
            assert(tied@[i as int] == key);
            return true;
        }
        i = i + 1;
    }
    false
}

fn frame_family_count(frame: &Vec<Observation>, observation: &Observation) -> (count: usize)
    ensures
        count == name_key_count(frame@, observation.name_key@, frame@.len() as int),
{
    let mut count: usize = 0;
    let mut i: usize = 0;
    while i < frame.len()
        invariant
            i <= frame@.len(),
            count <= i,
            count == name_key_count(frame@, observation.name_key@, i as int),
        decreases frame@.len() - i,
    {
        if frame[i].name_key == observation.name_key {
            count = count + 1;
        }
        i = i + 1;
    }
    count
}

proof fn lemma_push_keeps(before: Seq<TrackBuilder>, added: TrackBuilder, start: Seq<TrackBuilder>, preassigned: Seq<((usize, u32), usize)>, frame_count: usize)
    requires
        tracks_wf(before, frame_count),
        added.id == before.len(),
        added.cels@.len() == frame_count,
        cels_kept(start, before),
        entries_valid(preassigned, before),
    ensures
        tracks_wf(before.push(added), frame_count),
        cels_kept(start, before.push(added)),
        entries_valid(preassigned, before.push(added)),
{
    let after = before.push(added);
    assert forall|t: int| 0 <= t < after.len() implies (#[trigger] after[t]).id == t && after[t].cels@.len() == frame_count by {
        if t < before.len() {
            assert(after[t] == before[t]);
        }
    }
    assert forall|t: int, g: int| 0 <= t < start.len() && 0 <= g < start[t].cels@.len() && (#[trigger] start[t].cels@[g]) is Some
        implies after[t].cels@[g] == start[t].cels@[g] by {
        assert(after[t] == before[t]);
    }
    assert forall|e: int| 0 <= e < preassigned.len() implies {
        &&& (#[trigger] preassigned[e]).1 < after.len()
        &&& preassigned[e].0.0 < after[preassigned[e].1 as int].cels@.len()
        &&& after[preassigned[e].1 as int].cels@[preassigned[e].0.0 as int]
            == Some(PlannedCel { source_layer_id: preassigned[e].0.1, source_frame_index: preassigned[e].0.0 as u32, z_index: 0 })
    } by {
        assert(after[preassigned[e].1 as int] == before[preassigned[e].1 as int]);
    }
}

/// Whether no frame lists two observations with one source layer ID.
pub open spec fn ids_unique(frames: Seq<Vec<Observation>>) -> bool {
    forall|f: int, a: int, b: int| 0 <= f < frames.len() && 0 <= a < frames[f]@.len() && 0 <= b < frames[f]@.len() && a != b
        ==> (#[trigger] frames[f]@[a]).source_layer_id != (#[trigger] frames[f]@[b]).source_layer_id
}

/// Whether every cel that a track holds now but did not hold in `start` is listed by an
/// entry from position `from` on.
pub open spec fn new_cels_listed(start: Seq<TrackBuilder>, tracks: Seq<TrackBuilder>, preassigned: Seq<((usize, u32), usize)>, from: int) -> bool {
    forall|t: int, g: int| 0 <= t < tracks.len() && 0 <= g < tracks[t].cels@.len() && (#[trigger] tracks[t].cels@[g]) is Some
        && (t >= start.len() || start[t].cels@[g] is None)
        ==> exists|e: int| from <= e < preassigned.len() && #[trigger] preassigned[e] == ((g as usize, tracks[t].cels@[g]->0.source_layer_id), t as usize)
}

/// Whether the entries from position `from` on name pairwise different observations.
pub open spec fn keys_distinct(preassigned: Seq<((usize, u32), usize)>, from: int) -> bool {
    forall|a: int, b: int| from <= a < b < preassigned.len() ==> (#[trigger] preassigned[a]).0 != (#[trigger] preassigned[b]).0
}

/// Whether frame `frame` holds an observation of the family `key` with source layer `id`.
pub open spec fn family_has(frames: Seq<Vec<Observation>>, anchor_frame: usize, key: Seq<char>, frame: usize, id: u32) -> bool {
    exists|i: usize| #[trigger] family_member(frames, anchor_frame, key, false, (frame, i)) && frames[frame as int]@[i as int].source_layer_id == id
}

/// Whether the entries from position `from` on name observations of the family `key`.
pub open spec fn entries_of_family(frames: Seq<Vec<Observation>>, anchor_frame: usize, key: Seq<char>, preassigned: Seq<((usize, u32), usize)>, from: int) -> bool {
    forall|e: int| from <= e < preassigned.len() ==> family_has(frames, anchor_frame, key, (#[trigger] preassigned[e]).0.0, preassigned[e].0.1)
}

/// Associates the observations of one name family, outside the anchor frame, across all
/// frames at once: the family first gets as many tracks as its most crowded frame needs,
/// an observation whose exact name picks out one used track is locked to it, and the rest
/// are matched across frames so that a track serves one observation per frame. Each
/// observation of the family is recorded on its track, or on a new track where the
/// evidence is not safe, and listed in `preassigned`.
fn associate_family(
    key: &String,
    frames: &Vec<Vec<Observation>>,
    anchor_frame: usize,
    tracks: &mut Vec<TrackBuilder>,
    frame_count: usize,
    selectors: &Vec<FrameContainerInfo>,
    decisions: &mut Vec<AssociationDecision>,
    preassigned: &mut Vec<((usize, u32), usize)>,
)
    requires
        frames_wf(frames@, frame_count),
        ids_unique(frames@),
        tracks_wf(old(tracks)@, frame_count),
        entries_valid(old(preassigned)@, old(tracks)@),
    ensures
        tracks_wf(final(tracks)@, frame_count),
        cels_kept(old(tracks)@, final(tracks)@),
        entries_valid(final(preassigned)@, final(tracks)@),
        final(preassigned)@.len() >= old(preassigned)@.len(),
        final(preassigned)@.take(old(preassigned)@.len() as int) == old(preassigned)@,
        final(decisions)@.len() >= old(decisions)@.len(),
        final(decisions)@.take(old(decisions)@.len() as int) == old(decisions)@,
        new_cels_listed(old(tracks)@, final(tracks)@, final(preassigned)@, old(preassigned)@.len() as int),
        keys_distinct(final(preassigned)@, old(preassigned)@.len() as int),
        entries_of_family(frames@, anchor_frame, key@, final(preassigned)@, old(preassigned)@.len() as int),
        forall|x: FrameObservation| #[trigger] family_member(frames@, anchor_frame, key@, false, x)
            ==> listed(final(preassigned)@, old(preassigned)@.len() as int, x.0, frames@[x.0 as int]@[x.1 as int].source_layer_id),
        forall|e: int| old(preassigned)@.len() <= e < final(preassigned)@.len()
            ==> (#[trigger] final(preassigned)@[e]).1 < final(tracks)@.len() && final(tracks)@[final(preassigned)@[e].1 as int].name_key@ == key@,
        forall|t: int| 0 <= t < old(tracks)@.len() ==> (#[trigger] final(tracks)@[t]).name_key == old(tracks)@[t].name_key,
        final(decisions)@.len() - old(decisions)@.len() == final(preassigned)@.len() - old(preassigned)@.len(),
        decisions_entered(final(decisions)@, old(decisions)@.len() as int, final(preassigned)@, old(preassigned)@.len() as int),
        forall|q: int| old(decisions)@.len() <= q < final(decisions)@.len() ==> (#[trigger] final(decisions)@[q]).margin <= final(decisions)@[q].score <= 100,
        forall|q: int| old(decisions)@.len() <= q < final(decisions)@.len() ==> instances_counted(frames@, #[trigger] final(decisions)@[q]),
{
    let ghost start = tracks@;
    let ghost pre0 = preassigned@;
    let ghost dec0 = decisions@;
    assert(preassigned@.take(pre0.len() as int) =~= pre0);
    assert(decisions@.take(dec0.len() as int) =~= dec0);
    let family = family_positions(frames, anchor_frame, key, false);
    let all_family = family_positions(frames, anchor_frame, key, true);
    let existing = family_track_ids(tracks, key).len();
    let max_instances = max_family_instances(frames, key);
    let required: usize = if max_instances > existing { max_instances - existing } else { 0 };
    let mut representative: Option<FrameObservation> = None;
    let mut r: usize = 0;
    while r < all_family.len()
        invariant
            r <= all_family@.len(),
            positions_wf(all_family@, frames@),
            representative matches Some(x) ==> x.0 < frames@.len() && x.1 < frames@[x.0 as int]@.len(),
        decreases all_family@.len() - r,
    {
        if representative.is_none() {
            let (f, i) = all_family[r];
            if frames[f][i].copy_suffixes.len() > 0 {
                representative = Some((f, i));
            }
        }
        r = r + 1;
    }
    if representative.is_none() && all_family.len() > 0 {
        representative = Some(all_family[0]);
    }
    let mut slot: usize = 0;
    while slot < required
        invariant
            frames_wf(frames@, frame_count),
            representative matches Some(x) ==> x.0 < frames@.len() && x.1 < frames@[x.0 as int]@.len(),
            tracks_wf(tracks@, frame_count),
            tracks_wf(start, frame_count),
            cels_kept(start, tracks@),
            entries_valid(preassigned@, tracks@),
            preassigned@ == pre0,
            forall|t: int, g: int| start.len() <= t < tracks@.len() && 0 <= g < frame_count ==> (#[trigger] tracks@[t].cels@[g]) is None,
            forall|t: int, g: int| 0 <= t < start.len() && 0 <= g < frame_count ==> (#[trigger] tracks@[t].cels@[g]) == start[t].cels@[g],
            forall|t: int| 0 <= t < start.len() ==> (#[trigger] tracks@[t]).name_key == start[t].name_key,
            slot <= required,
        decreases required - slot,
    {
        if let Some((f, i)) = representative {
            let track_id = tracks.len();
            let track = new_track(track_id, &frames[f][i], frame_count);
            let ghost before = tracks@;
            let ghost added = track;
            proof {
                lemma_push_keeps(tracks@, track, start, preassigned@, frame_count);
            }
            tracks.push(track);
            proof {
                assert forall|t: int, g: int| start.len() <= t < tracks@.len() && 0 <= g < frame_count implies (#[trigger] tracks@[t].cels@[g]) is None by {
                    if t < before.len() {
                        assert(tracks@[t] == before[t]);
                        assert(before[t].cels@[g] is None);
                    } else {
                        assert(tracks@[t] == added);
                        assert(added.cels@[g] is None);
                    }
                }
                assert forall|t: int, g: int| 0 <= t < start.len() && 0 <= g < frame_count implies (#[trigger] tracks@[t].cels@[g]) == start[t].cels@[g] by {
                    assert(tracks@[t] == before[t]);
                    assert(before[t].cels@[g] == start[t].cels@[g]);
                }
                assert forall|t: int| 0 <= t < start.len() implies (#[trigger] tracks@[t]).name_key == start[t].name_key by {
                    assert(tracks@[t] == before[t]);
                }
            }
        }
        slot = slot + 1;
    }
    let family_tracks = family_track_ids(tracks, key);
    proof {
        assert(positions_wf(family@, frames@));
    }
    let candidates = family_candidates(&family, frames, tracks, &family_tracks, selectors, frame_count);
    let (locked, slots) = lock_exact_names(&family, frames, tracks, &candidates);
    let retained = retain_unlocked(&candidates, &slots, &family);
    proof {
        assert forall|p: int, e: int| 0 <= p < retained@.len() && 0 <= e < retained@[p]@.len() implies (#[trigger] retained@[p]@[e]).1 <= 100 by {
            let f = family@[p].0 as int;
            let list = family_track_list(frames@[f]@, frames@[f]@[family@[p].1 as int], tracks@, family_tracks@, f, selectors@, family_tracks@.len() as int);
            lemma_family_track_list_bounded(frames@[f]@, frames@[f]@[family@[p].1 as int], tracks@, family_tracks@, f, selectors@, family_tracks@.len() as int);
            lemma_sorted_bounded(list);
            assert(candidates@[p]@ == list.sort_by(candidate_order()));
            lemma_unlocked_bounded(candidates@[p]@, slots@, family@[p].0, candidates@[p]@.len() as int);
        }
    }
    let (keys, lists) = matching_inputs(&family, &locked, &retained);
    let matching = find_best_global_family_matching(&keys, &lists);
    let ghost assignments = matching.assignments@;
    proof {
        lemma_global_matching_one_per_frame(keys@, views(lists@));
        let best = global_search(keys@, views(lists@)).1;
        if best.len() > 0 {
            assert(slot_one_to_one(best[0], keys@, views(lists@)));
        }
        assert(slot_one_to_one(assignments, keys@, views(lists@)));
        lemma_planned_slots(family@, locked@, slots@, candidates@, retained@, keys@, lists@, assignments, tracks@);
        assert forall|q: int, e: int| 0 <= q < candidates@.len() && 0 <= e < candidates@[q]@.len() implies
            (#[trigger] candidates@[q]@[e]).0 < tracks@.len() && tracks@[candidates@[q]@[e].0 as int].name_key@ == key@ by {
            assert(family_tracks@.contains(candidates@[q]@[e].0));
            let w = choose|w: int| 0 <= w < family_tracks@.len() && family_tracks@[w] == candidates@[q]@[e].0;
            assert(tracks@[family_tracks@[w] as int].name_key@ == key@);
        }
    }
    let multi_instance_family = max_instances > 1;
    proof {
        assert forall|t: int, g: int| 0 <= t < tracks@.len() && 0 <= g < tracks@[t].cels@.len() && (#[trigger] tracks@[t].cels@[g]) is Some
            && (t >= start.len() || start[t].cels@[g] is None)
            implies exists|e: int| pre0.len() <= e < preassigned@.len() && #[trigger] preassigned@[e] == ((g as usize, tracks@[t].cels@[g]->0.source_layer_id), t as usize) by {
            if t < start.len() {
                assert(tracks@[t].cels@[g] == start[t].cels@[g]);
            }
        }
    }
    let mut p: usize = 0;
    while p < family.len()
        invariant
            frames_wf(frames@, frame_count),
            positions_wf(family@, frames@),
            locked@.len() == family@.len(),
            retained@.len() == family@.len(),
            assignments == matching.assignments@,
            tracks_wf(start, frame_count),
            tracks_wf(tracks@, frame_count),
            cels_kept(start, tracks@),
            entries_valid(preassigned@, tracks@),
            preassigned@.len() >= pre0.len(),
            preassigned@.take(pre0.len() as int) == pre0,
            decisions@.len() >= dec0.len(),
            decisions@.take(dec0.len() as int) == dec0,
            p <= family@.len(),
            ids_unique(frames@),
            forall|x: int| 0 <= x < family@.len() ==> family_member(frames@, anchor_frame, key@, false, #[trigger] family@[x]),
            forall|x: int, y: int| 0 <= x < y < family@.len() ==> position_before(#[trigger] family@[x], #[trigger] family@[y]),
            preassigned@.len() == pre0.len() + p,
            decisions@.len() == dec0.len() + p,
            decisions_entered(decisions@, dec0.len() as int, preassigned@, pre0.len() as int),
            retained@.len() == family@.len(),
            forall|q: int, e: int| 0 <= q < retained@.len() && 0 <= e < retained@[q]@.len() ==> (#[trigger] retained@[q]@[e]).1 <= 100,
            forall|q: int| dec0.len() <= q < decisions@.len() ==> (#[trigger] decisions@[q]).margin <= decisions@[q].score <= 100,
            forall|q: int| dec0.len() <= q < decisions@.len() ==> instances_counted(frames@, #[trigger] decisions@[q]),
            forall|e: int| pre0.len() <= e < preassigned@.len() ==> (#[trigger] preassigned@[e]).0
                == (family@[e - pre0.len()].0, frames@[family@[e - pre0.len()].0 as int]@[family@[e - pre0.len()].1 as int].source_layer_id),
            new_cels_listed(start, tracks@, preassigned@, pre0.len() as int),
            forall|q: int| p <= q < family@.len() && (#[trigger] planned_track(locked@, assignments, family@, q)) is Some ==> {
                let t = planned_track(locked@, assignments, family@, q)->0;
                &&& t < tracks@.len()
                &&& tracks@[t as int].cels@[family@[q].0 as int] is None
            },
            candidates@.len() == family@.len(),
            forall|q: int| 0 <= q < family@.len() && (#[trigger] planned_track(locked@, assignments, family@, q)) is Some
                ==> lists_track(candidates@[q]@, planned_track(locked@, assignments, family@, q)->0),
            forall|q: int, e: int| 0 <= q < candidates@.len() && 0 <= e < candidates@[q]@.len() ==>
                (#[trigger] candidates@[q]@[e]).0 < tracks@.len() && tracks@[candidates@[q]@[e].0 as int].name_key@ == key@,
            forall|e: int| pre0.len() <= e < preassigned@.len()
                ==> (#[trigger] preassigned@[e]).1 < tracks@.len() && tracks@[preassigned@[e].1 as int].name_key@ == key@,
            forall|t: int| 0 <= t < start.len() ==> (#[trigger] tracks@[t]).name_key == start[t].name_key,
            forall|a: int, b: int| 0 <= a < family@.len() && 0 <= b < family@.len() && a != b
                && (#[trigger] planned_track(locked@, assignments, family@, a)) is Some
                && (#[trigger] planned_track(locked@, assignments, family@, b)) is Some
                ==> (family@[a].0, planned_track(locked@, assignments, family@, a)->0) != (family@[b].0, planned_track(locked@, assignments, family@, b)->0),
        decreases family@.len() - p,
    {
        let (f, i) = family[p];
        let frame = &frames[f];
        let observation = &frame[i];
        assert(observation.frame_index == f);
        let instance_count = frame_family_count(frame, observation);
        let list = &retained[p];
        let is_locked = locked[p].is_some();
        let selected: Option<usize> = match locked[p] {
            Some(t) => Some(t),
            None => global_track(&matching.assignments, (f, p)),
        };
        assert(selected == planned_track(locked@, assignments, family@, p as int));
        let ghost before_tracks = tracks@;
        let ghost before_pre = preassigned@;
        let ghost before_dec = decisions@;
        let mut recorded_on: Option<usize> = None;
        match selected {
            None => {
                create_family_new_track(observation, tracks, frame_count, selectors, decisions, preassigned, list, false, instance_count, multi_instance_family);
            },
            Some(track_id) => {
                let mut score: u16 = if is_locked { 100 } else { 0 };
                let mut found = false;
                let mut second: u16 = 0;
                let mut exact: usize = 0;
                let mut c: usize = 0;
                while c < list.len()
                    invariant
                        c <= list@.len(),
                        exact <= c,
                        score <= 100,
                        forall|e: int| 0 <= e < list@.len() ==> (#[trigger] list@[e]).1 <= 100,
                    decreases list@.len() - c,
                {
                    let (candidate, value) = list[c];
                    if candidate == track_id {
                        if !found {
                            score = value;
                            found = true;
                        }
                    } else if value > second {
                        second = value;
                    }
                    if candidate < tracks.len() && tracks[candidate].normalized_name == observation.normalized_name {
                        exact = exact + 1;
                    }
                    c = c + 1;
                }
                let exact_pixels = holds_same_pixels(observation, &tracks[track_id]);
                let new_slot = tracks[track_id].observations.len() == 0;
                let tied = tied_contains(&matching.tied_observations, (f, p));
                let margin: u16 = if score >= second { score - second } else { 0 };
                if is_locked || (new_slot && tied) || exact == 1 || (multi_instance_family && exact_pixels)
                    || (!multi_instance_family && score >= 75 && margin >= 15) {
                    let phase = if new_slot { AssociationPhase::NewTrack } else { AssociationPhase::Family };
                    let status = if new_slot { AssociationDecisionStatus::NewTrack } else { AssociationDecisionStatus::Inferred };
                    record_family_assignment(
                        observation, track_id, tracks, decisions, preassigned,
                        AssignmentMetadata { score, margin, phase, matching_tie: tied },
                        status, list, selectors, instance_count,
                    );
                    recorded_on = Some(track_id);
                } else {
                    create_family_new_track(observation, tracks, frame_count, selectors, decisions, preassigned, list, tied, instance_count, multi_instance_family);
                }
            },
        }
        proof {
            assert(preassigned@.take(before_pre.len() as int) =~= before_pre);
            lemma_entered_push(before_dec, decisions@, dec0.len() as int, before_pre, preassigned@, pre0.len() as int);
            assert forall|q: int| dec0.len() <= q < decisions@.len() implies (#[trigger] decisions@[q]).margin <= decisions@[q].score <= 100 by {
                if q < before_dec.len() {
                    assert(decisions@.take(before_dec.len() as int)[q] == decisions@[q]);
                    assert(before_dec[q].margin <= before_dec[q].score <= 100);
                }
            }
            assert forall|q: int| dec0.len() <= q < decisions@.len() implies instances_counted(frames@, #[trigger] decisions@[q]) by {
                if q < before_dec.len() {
                    assert(decisions@.take(before_dec.len() as int)[q] == decisions@[q]);
                    assert(instances_counted(frames@, before_dec[q]));
                } else {
                    assert(decisions@[q] == decisions@.last());
                    assert(frames@[f as int]@[i as int].source_layer_id == decisions@[q].source_layer_id);
                }
            }
        }
        proof {
            assert(preassigned@.take(pre0.len() as int) =~= before_pre.take(pre0.len() as int));
            assert(decisions@.take(dec0.len() as int) =~= before_dec.take(dec0.len() as int));
            let entry = ((observation.frame_index, observation.source_layer_id), preassigned@.last().1);
            assert(preassigned@ == before_pre.push(preassigned@.last()));
            match recorded_on {
                Some(t) => {
                    let tracks_now = tracks@;
                    assert forall|u: int| 0 <= u < tracks_now.len() implies (#[trigger] tracks_now[u]).id == u && tracks_now[u].cels@.len() == frame_count by {
                        if u != t {
                            assert(tracks_now[u] == before_tracks[u]);
                        }
                    }
                    assert forall|u: int, g: int| 0 <= u < start.len() && 0 <= g < start[u].cels@.len() && (#[trigger] start[u].cels@[g]) is Some
                        implies tracks_now[u].cels@[g] == start[u].cels@[g] by {
                        assert(before_tracks[u].cels@[g] == start[u].cels@[g]);
                        if u == t && g == f {
                            assert(before_tracks[t as int].cels@[f as int] is None);
                        } else if u != t {
                            assert(tracks_now[u] == before_tracks[u]);
                        } else {
                            assert(tracks_now[u].cels@[g] == before_tracks[u].cels@[g]);
                        }
                    }
                    assert forall|e: int| 0 <= e < preassigned@.len() implies {
                        &&& (#[trigger] preassigned@[e]).1 < tracks_now.len()
                        &&& preassigned@[e].0.0 < tracks_now[preassigned@[e].1 as int].cels@.len()
                        &&& tracks_now[preassigned@[e].1 as int].cels@[preassigned@[e].0.0 as int]
                            == Some(PlannedCel { source_layer_id: preassigned@[e].0.1, source_frame_index: preassigned@[e].0.0 as u32, z_index: 0 })
                    } by {
                        if e < before_pre.len() {
                            assert(preassigned@[e] == before_pre[e]);
                            let u = before_pre[e].1 as int;
                            let g = before_pre[e].0.0 as int;
                            if u != t {
                                assert(tracks_now[u] == before_tracks[u]);
                            } else {
                                assert(before_tracks[u].cels@[g] is Some);
                                assert(before_tracks[t as int].cels@[f as int] is None);
                                assert(g != f);
                                assert(tracks_now[u].cels@[g] == before_tracks[u].cels@[g]);
                            }
                        } else {
                            assert(preassigned@[e] == ((observation.frame_index, observation.source_layer_id), t));
                            assert(tracks_now[t as int].cels@[f as int] == Some(cel_of(*observation)));
                        }
                    }
                    let last = preassigned@.len() - 1;
                    assert(preassigned@[last] == ((f, observation.source_layer_id), t));
                    assert forall|u: int, g: int| 0 <= u < tracks_now.len() && 0 <= g < tracks_now[u].cels@.len() && (#[trigger] tracks_now[u].cels@[g]) is Some
                        && (u >= start.len() || start[u].cels@[g] is None)
                        implies exists|e: int| pre0.len() <= e < preassigned@.len() && #[trigger] preassigned@[e] == ((g as usize, tracks_now[u].cels@[g]->0.source_layer_id), u as usize) by {
                        if u == t && g == f {
                            assert(preassigned@[last] == ((g as usize, tracks_now[u].cels@[g]->0.source_layer_id), u as usize));
                        } else {
                            if u != t {
                                assert(tracks_now[u] == before_tracks[u]);
                            } else {
                                assert(tracks_now[u].cels@[g] == before_tracks[u].cels@[g]);
                            }
                            let e = choose|e: int| pre0.len() <= e < before_pre.len() && #[trigger] before_pre[e] == ((g as usize, before_tracks[u].cels@[g]->0.source_layer_id), u as usize);
                            assert(preassigned@[e] == before_pre[e]);
                        }
                    }
                    assert forall|e: int| pre0.len() <= e < preassigned@.len() implies (#[trigger] preassigned@[e]).0
                        == (family@[e - pre0.len()].0, frames@[family@[e - pre0.len()].0 as int]@[family@[e - pre0.len()].1 as int].source_layer_id) by {
                        if e < before_pre.len() {
                            assert(preassigned@[e] == before_pre[e]);
                        }
                    }
                    assert forall|q: int| p + 1 <= q < family@.len() && (#[trigger] planned_track(locked@, assignments, family@, q)) is Some implies {
                        let tq = planned_track(locked@, assignments, family@, q)->0;
                        &&& tq < tracks_now.len()
                        &&& tracks_now[tq as int].cels@[family@[q].0 as int] is None
                    } by {
                        let tq = planned_track(locked@, assignments, family@, q)->0;
                        assert((family@[p as int].0, planned_track(locked@, assignments, family@, p as int)->0) != (family@[q].0, tq));
                        if tq != t {
                            assert(tracks_now[tq as int] == before_tracks[tq as int]);
                        }
                    }
                },
                None => {
                    let added = tracks@.last();
                    assert(tracks@ == before_tracks.push(added));
                    proof_new_track_keeps(before_tracks, added, start, before_pre, preassigned@, frame_count, f as int);
                    let last = preassigned@.len() - 1;
                    let nt = before_tracks.len() as int;
                    assert(preassigned@[last] == ((f, observation.source_layer_id), before_tracks.len() as usize));
                    assert forall|u: int, g: int| 0 <= u < tracks@.len() && 0 <= g < tracks@[u].cels@.len() && (#[trigger] tracks@[u].cels@[g]) is Some
                        && (u >= start.len() || start[u].cels@[g] is None)
                        implies exists|e: int| pre0.len() <= e < preassigned@.len() && #[trigger] preassigned@[e] == ((g as usize, tracks@[u].cels@[g]->0.source_layer_id), u as usize) by {
                        if u == nt {
                            assert(tracks@[u] == added);
                            assert(g == f);
                            assert(preassigned@[last] == ((g as usize, tracks@[u].cels@[g]->0.source_layer_id), u as usize));
                        } else {
                            assert(tracks@[u] == before_tracks[u]);
                            let e = choose|e: int| pre0.len() <= e < before_pre.len() && #[trigger] before_pre[e] == ((g as usize, before_tracks[u].cels@[g]->0.source_layer_id), u as usize);
                            assert(preassigned@[e] == before_pre[e]);
                        }
                    }
                    assert forall|e: int| pre0.len() <= e < preassigned@.len() implies (#[trigger] preassigned@[e]).0
                        == (family@[e - pre0.len()].0, frames@[family@[e - pre0.len()].0 as int]@[family@[e - pre0.len()].1 as int].source_layer_id) by {
                        if e < before_pre.len() {
                            assert(preassigned@[e] == before_pre[e]);
                        }
                    }
                    assert forall|q: int| p + 1 <= q < family@.len() && (#[trigger] planned_track(locked@, assignments, family@, q)) is Some implies {
                        let tq = planned_track(locked@, assignments, family@, q)->0;
                        &&& tq < tracks@.len()
                        &&& tracks@[tq as int].cels@[family@[q].0 as int] is None
                    } by {
                        let tq = planned_track(locked@, assignments, family@, q)->0;
                        assert(tracks@[tq as int] == before_tracks[tq as int]);
                    }
                },
            }
        }
        proof {
            assert(family_member(frames@, anchor_frame, key@, false, family@[p as int]));
            assert(observation.name_key@ == key@);
            match recorded_on {
                Some(t) => {
                    assert forall|u: int| 0 <= u < tracks@.len() implies (#[trigger] tracks@[u]).name_key == before_tracks[u].name_key by {
                        if u != t {
                            assert(tracks@[u] == before_tracks[u]);
                        }
                    }
                    assert(lists_track(candidates@[p as int]@, t));
                    let w = choose|w: int| 0 <= w < candidates@[p as int]@.len() && (#[trigger] candidates@[p as int]@[w]).0 == t;
                    assert(before_tracks[candidates@[p as int]@[w].0 as int].name_key@ == key@);
                },
                None => {
                    let added = tracks@.last();
                    assert(tracks@ == before_tracks.push(added));
                    assert forall|u: int| 0 <= u < before_tracks.len() implies (#[trigger] tracks@[u]).name_key == before_tracks[u].name_key by {
                        assert(tracks@[u] == before_tracks[u]);
                    }
                    assert(added.name_key@ == key@);
                },
            }
            assert forall|q: int, e: int| 0 <= q < candidates@.len() && 0 <= e < candidates@[q]@.len() implies
                (#[trigger] candidates@[q]@[e]).0 < tracks@.len() && tracks@[candidates@[q]@[e].0 as int].name_key@ == key@ by {
                assert(before_tracks[candidates@[q]@[e].0 as int].name_key@ == key@);
            }
            assert forall|e: int| pre0.len() <= e < preassigned@.len()
                implies (#[trigger] preassigned@[e]).1 < tracks@.len() && tracks@[preassigned@[e].1 as int].name_key@ == key@ by {
                if e < before_pre.len() {
                    assert(preassigned@[e] == before_pre[e]);
                    assert(before_tracks[before_pre[e].1 as int].name_key@ == key@);
                }
            }
            assert forall|t: int| 0 <= t < start.len() implies (#[trigger] tracks@[t]).name_key == start[t].name_key by {
                assert(before_tracks[t].name_key == start[t].name_key);
            }
        }
        p = p + 1;
    }
    proof {
        let n0 = pre0.len() as int;
        assert forall|a: int, b: int| n0 <= a < b < preassigned@.len() implies (#[trigger] preassigned@[a]).0 != (#[trigger] preassigned@[b]).0 by {
            let x = a - n0;
            let y = b - n0;
            assert(position_before(family@[x], family@[y]));
            assert(family_member(frames@, anchor_frame, key@, false, family@[x]));
            assert(family_member(frames@, anchor_frame, key@, false, family@[y]));
            if family@[x].0 == family@[y].0 {
                let fr = family@[x].0 as int;
                assert(frames@[fr]@[family@[x].1 as int].source_layer_id != frames@[fr]@[family@[y].1 as int].source_layer_id);
            }
        }
        assert forall|e: int| n0 <= e < preassigned@.len() implies family_has(frames@, anchor_frame, key@, (#[trigger] preassigned@[e]).0.0, preassigned@[e].0.1) by {
            let x = e - n0;
            assert(family_member(frames@, anchor_frame, key@, false, family@[x]));
            assert(family@[x] == (preassigned@[e].0.0, family@[x].1));
            assert(family_member(frames@, anchor_frame, key@, false, (preassigned@[e].0.0, family@[x].1)));
            assert(frames@[preassigned@[e].0.0 as int]@[family@[x].1 as int].source_layer_id == preassigned@[e].0.1);
        }
        assert(entries_of_family(frames@, anchor_frame, key@, preassigned@, n0));
        assert forall|x: FrameObservation| #[trigger] family_member(frames@, anchor_frame, key@, false, x)
            implies listed(preassigned@, n0, x.0, frames@[x.0 as int]@[x.1 as int].source_layer_id) by {
            let w = choose|w: int| 0 <= w < family@.len() && family@[w] == x;
            assert(preassigned@[n0 + w].0 == (x.0, frames@[x.0 as int]@[x.1 as int].source_layer_id));
        }
    }
}

/// Whether an entry from position `from` on lists the observation with source layer `id` in
/// frame `frame`.
pub open spec fn listed(preassigned: Seq<((usize, u32), usize)>, from: int, frame: usize, id: u32) -> bool {
    exists|e: int| from <= e < preassigned.len() && (#[trigger] preassigned[e]).0 == (frame, id)
}

proof fn proof_new_track_keeps(
    before: Seq<TrackBuilder>,
    added: TrackBuilder,
    start: Seq<TrackBuilder>,
    before_pre: Seq<((usize, u32), usize)>,
    pre: Seq<((usize, u32), usize)>,
    frame_count: usize,
    frame: int,
)
    requires
        tracks_wf(before, frame_count),
        cels_kept(start, before),
        entries_valid(before_pre, before),
        added.id == before.len(),
        0 <= frame < frame_count,
        frame <= u32::MAX,
        pre.len() == before_pre.len() + 1,
        forall|e: int| 0 <= e < before_pre.len() ==> #[trigger] pre[e] == before_pre[e],
        pre.last().1 == before.len(),
        pre.last().0.0 == frame,
        added.cels@ == Seq::new(frame_count as nat, |i: int| None::<PlannedCel>).update(frame,
            Some(PlannedCel { source_layer_id: pre.last().0.1, source_frame_index: frame as u32, z_index: 0 })),
    ensures
        tracks_wf(before.push(added), frame_count),
        cels_kept(start, before.push(added)),
        entries_valid(pre, before.push(added)),
{
    lemma_push_keeps(before, added, start, before_pre, frame_count);
    let after = before.push(added);
    assert forall|e: int| 0 <= e < pre.len() implies {
        &&& (#[trigger] pre[e]).1 < after.len()
        &&& pre[e].0.0 < after[pre[e].1 as int].cels@.len()
        &&& after[pre[e].1 as int].cels@[pre[e].0.0 as int]
            == Some(PlannedCel { source_layer_id: pre[e].0.1, source_frame_index: pre[e].0.0 as u32, z_index: 0 })
    } by {
        if e < before_pre.len() {
            assert(pre[e] == before_pre[e]);
        } else {
            assert(pre[e] == pre.last());
            assert(after[before.len() as int] == added);
        }
    }
}

/// Whether one string sorts before another byte by byte, as `String` orders.
fn sorts_before(a: &String, b: &String) -> (before: bool)
    ensures
        before == text_before(a@, b@),
{
    text_precedes(a, b)
}

/// Whether frame `f`, which is not the anchor frame, holds at `i` an observation with a
/// specific name.
pub open spec fn specific_outside(frames: Seq<Vec<Observation>>, anchor_frame: usize, f: int, i: int) -> bool {
    &&& 0 <= f < frames.len()
    &&& f != anchor_frame
    &&& 0 <= i < frames[f]@.len()
    &&& !frames[f]@[i].generic_name
}

/// Whether some observation outside the anchor frame has a specific name of the family.
pub open spec fn key_named(frames: Seq<Vec<Observation>>, anchor_frame: usize, key: Seq<char>) -> bool {
    exists|f: int, i: int| #[trigger] specific_outside(frames, anchor_frame, f, i) && frames[f]@[i].name_key@ == key
}

proof fn lemma_bytes_before_asymmetric(a: Seq<u8>, b: Seq<u8>)
    ensures
        bytes_before(a, b) ==> !bytes_before(b, a),
    decreases a.len(),
{
    if a.len() > 0 && b.len() > 0 && a[0] == b[0] {
        lemma_bytes_before_asymmetric(a.drop_first(), b.drop_first());
    }
}

proof fn lemma_bytes_before_transitive(a: Seq<u8>, b: Seq<u8>, c: Seq<u8>)
    ensures
        bytes_before(a, b) && bytes_before(b, c) ==> bytes_before(a, c),
    decreases a.len(),
{
    if a.len() > 0 && b.len() > 0 && c.len() > 0 && a[0] == b[0] && b[0] == c[0] {
        lemma_bytes_before_transitive(a.drop_first(), b.drop_first(), c.drop_first());
    }
}

/// The distinct keys of the families with specific names outside the anchor frame, in
/// ascending byte order.
fn family_keys(frames: &Vec<Vec<Observation>>, anchor_frame: usize) -> (keys: Vec<String>)
    ensures
        forall|a: int, b: int| 0 <= a < b < keys@.len() ==> (#[trigger] keys@[a])@ != (#[trigger] keys@[b])@,
        forall|a: int, b: int| 0 <= a < b < keys@.len() ==> !text_before((#[trigger] keys@[b])@, (#[trigger] keys@[a])@),
        forall|f: int, i: int| #[trigger] specific_outside(frames@, anchor_frame, f, i)
            ==> exists|a: int| 0 <= a < keys@.len() && (#[trigger] keys@[a])@ == frames@[f]@[i].name_key@,
        forall|a: int| 0 <= a < keys@.len() ==> key_named(frames@, anchor_frame, (#[trigger] keys@[a])@),
{
    let mut keys: Vec<String> = Vec::new();
    let mut f: usize = 0;
    while f < frames.len()
        invariant
            f <= frames@.len(),
            forall|a: int, b: int| 0 <= a < b < keys@.len() ==> (#[trigger] keys@[a])@ != (#[trigger] keys@[b])@,
            forall|a: int, b: int| 0 <= a < b < keys@.len() ==> !text_before((#[trigger] keys@[b])@, (#[trigger] keys@[a])@),
            forall|g: int, i: int| #[trigger] specific_outside(frames@, anchor_frame, g, i) && g < f
                ==> exists|a: int| 0 <= a < keys@.len() && (#[trigger] keys@[a])@ == frames@[g]@[i].name_key@,
            forall|a: int| 0 <= a < keys@.len() ==> key_named(frames@, anchor_frame, (#[trigger] keys@[a])@),
        decreases frames@.len() - f,
    {
        if f != anchor_frame {
            let frame = &frames[f];
            let mut i: usize = 0;
            while i < frame.len()
                invariant
                    f < frames@.len(),
                    f != anchor_frame,
                    frame@ == frames@[f as int]@,
                    i <= frame@.len(),
                    forall|a: int, b: int| 0 <= a < b < keys@.len() ==> (#[trigger] keys@[a])@ != (#[trigger] keys@[b])@,
                    forall|a: int, b: int| 0 <= a < b < keys@.len() ==> !text_before((#[trigger] keys@[b])@, (#[trigger] keys@[a])@),
                    forall|g: int, j: int| #[trigger] specific_outside(frames@, anchor_frame, g, j) && (g < f || (g == f && j < i))
                        ==> exists|a: int| 0 <= a < keys@.len() && (#[trigger] keys@[a])@ == frames@[g]@[j].name_key@,
                    forall|a: int| 0 <= a < keys@.len() ==> key_named(frames@, anchor_frame, (#[trigger] keys@[a])@),
                decreases frame@.len() - i,
            {
                let observation = &frame[i];
                assert(observation == frames@[f as int]@[i as int]);
                if !observation.generic_name {
                    assert(specific_outside(frames@, anchor_frame, f as int, i as int));
                    let ghost name = observation.name_key@;
                    let mut known = false;
                    let mut position: usize = keys.len();
                    let mut k: usize = 0;
                    while k < keys.len()
                        invariant
                            k <= keys@.len(),
                            position <= keys@.len(),
                            name == observation.name_key@,
                            known <==> exists|a: int| 0 <= a < k && (#[trigger] keys@[a])@ == name,
                            position == keys@.len() ==> forall|a: int| 0 <= a < k && (#[trigger] keys@[a])@ != name ==> !text_before(name, keys@[a]@),
                            position < keys@.len() ==> position < k && text_before(name, keys@[position as int]@)
                                && forall|a: int| 0 <= a < position && (#[trigger] keys@[a])@ != name ==> !text_before(name, keys@[a]@),
                        decreases keys@.len() - k,
                    {
                        if keys[k] == observation.name_key {
                            known = true;
                        } else if position == keys.len() && sorts_before(&observation.name_key, &keys[k]) {
                            position = k;
                        }
                        k = k + 1;
                    }
                    if !known {
                        let ghost before = keys@;
                        let added = observation.name_key.clone();
                        keys.insert(position, added);
                        proof {
                            assert(keys@[position as int]@ == name);
                            assert forall|a: int, b: int| 0 <= a < b < keys@.len() implies (#[trigger] keys@[a])@ != (#[trigger] keys@[b])@ by {
                                if a == position {
                                    assert(keys@[b] == before[b - 1]);
                                } else if b == position {
                                    assert(keys@[a] == before[a]);
                                } else {
                                    let a0 = if a < position { a } else { a - 1 };
                                    let b0 = if b < position { b } else { b - 1 };
                                    assert(keys@[a] == before[a0]);
                                    assert(keys@[b] == before[b0]);
                                }
                            }
                            assert forall|a: int, b: int| 0 <= a < b < keys@.len() implies !text_before((#[trigger] keys@[b])@, (#[trigger] keys@[a])@) by {
                                if a == position {
                                    let b0 = b - 1;
                                    assert(keys@[b] == before[b0]);
                                    let p0 = position as int;
                                    let nb = vstd::utf8::encode_utf8(before[b0]@);
                                    let nn = vstd::utf8::encode_utf8(name);
                                    let np = vstd::utf8::encode_utf8(before[p0]@);
                                    lemma_bytes_before_transitive(nb, nn, np);
                                    lemma_bytes_before_asymmetric(nb, nn);
                                    lemma_bytes_before_asymmetric(nn, np);
                                    if b0 > p0 {
                                        assert(!text_before(before[b0]@, before[p0]@));
                                    }
                                } else if b == position {
                                    assert(keys@[a] == before[a]);
                                    assert(before[a]@ != name);
                                } else {
                                    let a0 = if a < position { a } else { a - 1 };
                                    let b0 = if b < position { b } else { b - 1 };
                                    assert(keys@[a] == before[a0]);
                                    assert(keys@[b] == before[b0]);
                                }
                            }
                            assert forall|g: int, j: int| #[trigger] specific_outside(frames@, anchor_frame, g, j) && (g < f || (g == f && j < i + 1))
                                implies exists|a: int| 0 <= a < keys@.len() && (#[trigger] keys@[a])@ == frames@[g]@[j].name_key@ by {
                                if g == f && j == i {
                                    assert(keys@[position as int]@ == frames@[g]@[j].name_key@);
                                } else {
                                    let a = choose|a: int| 0 <= a < before.len() && (#[trigger] before[a])@ == frames@[g]@[j].name_key@;
                                    if a < position {
                                        assert(keys@[a] == before[a]);
                                    } else {
                                        assert(keys@[a + 1] == before[a]);
                                    }
                                }
                            }
                            assert forall|a: int| 0 <= a < keys@.len() implies key_named(frames@, anchor_frame, (#[trigger] keys@[a])@) by {
                                if a == position {
                                    assert(specific_outside(frames@, anchor_frame, f as int, i as int) && frames@[f as int]@[i as int].name_key@ == keys@[a]@);
                                } else {
                                    let a0 = if a < position { a } else { a - 1 };
                                    assert(keys@[a] == before[a0]);
                                    assert(key_named(frames@, anchor_frame, before[a0]@));
                                }
                            }
                        }
                    } else {
                        assert forall|g: int, j: int| #[trigger] specific_outside(frames@, anchor_frame, g, j) && (g < f || (g == f && j < i + 1))
                            implies exists|a: int| 0 <= a < keys@.len() && (#[trigger] keys@[a])@ == frames@[g]@[j].name_key@ by {
                            if g == f && j == i {
                                let a = choose|a: int| 0 <= a < keys@.len() && (#[trigger] keys@[a])@ == name;
                                assert(keys@[a]@ == frames@[g]@[j].name_key@);
                            }
                        }
                    }
                }
                i = i + 1;
            }
        }
        f = f + 1;
    }
    keys
}

proof fn lemma_cels_kept_chain(a: Seq<TrackBuilder>, b: Seq<TrackBuilder>, c: Seq<TrackBuilder>, frame_count: usize)
    requires
        tracks_wf(a, frame_count),
        tracks_wf(b, frame_count),
        cels_kept(a, b),
        cels_kept(b, c),
    ensures
        cels_kept(a, c),
{
    assert forall|t: int, g: int| 0 <= t < a.len() && 0 <= g < a[t].cels@.len() && (#[trigger] a[t].cels@[g]) is Some
        implies c[t].cels@[g] == a[t].cels@[g] by {
        assert(b[t].cels@[g] == a[t].cels@[g]);
        assert(b[t].cels@.len() == a[t].cels@.len());
    }
}

/// Associates every name family with specific names across all frames but the anchor
/// frame, family by family in ascending byte order of the family key, before the frames
/// are visited one by one. No cel already held by a track is replaced, and every entry of
/// `preassigned` names a track that holds the entry's cel.
pub fn associate_families_globally(
    frames: &Vec<Vec<Observation>>,
    anchor_frame: usize,
    tracks: &mut Vec<TrackBuilder>,
    frame_count: usize,
    selectors: &Vec<FrameContainerInfo>,
    decisions: &mut Vec<AssociationDecision>,
    preassigned: &mut Vec<((usize, u32), usize)>,
)
    requires
        frames_wf(frames@, frame_count),
        ids_unique(frames@),
        tracks_wf(old(tracks)@, frame_count),
        entries_valid(old(preassigned)@, old(tracks)@),
    ensures
        tracks_wf(final(tracks)@, frame_count),
        cels_kept(old(tracks)@, final(tracks)@),
        entries_valid(final(preassigned)@, final(tracks)@),
        final(preassigned)@.len() >= old(preassigned)@.len(),
        final(preassigned)@.take(old(preassigned)@.len() as int) == old(preassigned)@,
        final(decisions)@.len() >= old(decisions)@.len(),
        final(decisions)@.take(old(decisions)@.len() as int) == old(decisions)@,
        new_cels_listed(old(tracks)@, final(tracks)@, final(preassigned)@, old(preassigned)@.len() as int),
        keys_distinct(final(preassigned)@, old(preassigned)@.len() as int),
        forall|e: int| old(preassigned)@.len() <= e < final(preassigned)@.len()
            ==> observed_outside_anchor(frames@, anchor_frame, (#[trigger] final(preassigned)@[e]).0.0, final(preassigned)@[e].0.1),
        forall|x: FrameObservation| #[trigger] specific_outside(frames@, anchor_frame, x.0 as int, x.1 as int)
            ==> listed(final(preassigned)@, old(preassigned)@.len() as int, x.0, frames@[x.0 as int]@[x.1 as int].source_layer_id),
        forall|e: int| old(preassigned)@.len() <= e < final(preassigned)@.len()
            ==> keyed_entry(frames@, anchor_frame, final(tracks)@, #[trigger] final(preassigned)@[e]),
        forall|t: int| 0 <= t < old(tracks)@.len() ==> (#[trigger] final(tracks)@[t]).name_key == old(tracks)@[t].name_key,
        final(decisions)@.len() - old(decisions)@.len() == final(preassigned)@.len() - old(preassigned)@.len(),
        decisions_entered(final(decisions)@, old(decisions)@.len() as int, final(preassigned)@, old(preassigned)@.len() as int),
        forall|q: int| old(decisions)@.len() <= q < final(decisions)@.len() ==> (#[trigger] final(decisions)@[q]).margin <= final(decisions)@[q].score <= 100,
        forall|q: int| old(decisions)@.len() <= q < final(decisions)@.len() ==> {
            let d = #[trigger] final(decisions)@[q];
            &&& d.track_id < final(tracks)@.len()
            &&& exists|i: int| #[trigger] specific_outside(frames@, anchor_frame, d.frame_index as int, i)
                && frames@[d.frame_index as int]@[i].source_layer_id == d.source_layer_id
                && final(tracks)@[d.track_id as int].name_key@ == frames@[d.frame_index as int]@[i].name_key@
        },
        forall|q: int| old(decisions)@.len() <= q < final(decisions)@.len() ==> instances_counted(frames@, #[trigger] final(decisions)@[q]),
{
    let ghost start = tracks@;
    let ghost pre0 = preassigned@;
    let ghost dec0 = decisions@;
    assert(preassigned@.take(pre0.len() as int) =~= pre0);
    assert(decisions@.take(dec0.len() as int) =~= dec0);
    proof {
        assert forall|t: int, g: int| 0 <= t < start.len() && 0 <= g < start[t].cels@.len() && (#[trigger] start[t].cels@[g]) is Some
            implies tracks@[t].cels@[g] == start[t].cels@[g] by {}
    }
    let keys = family_keys(frames, anchor_frame);
    let mut k: usize = 0;
    while k < keys.len()
        invariant
            frames_wf(frames@, frame_count),
            ids_unique(frames@),
            tracks_wf(start, frame_count),
            tracks_wf(tracks@, frame_count),
            cels_kept(start, tracks@),
            entries_valid(preassigned@, tracks@),
            preassigned@.len() >= pre0.len(),
            preassigned@.take(pre0.len() as int) == pre0,
            decisions@.len() >= dec0.len(),
            decisions@.take(dec0.len() as int) == dec0,
            k <= keys@.len(),
            forall|a: int, b: int| 0 <= a < b < keys@.len() ==> (#[trigger] keys@[a])@ != (#[trigger] keys@[b])@,
            new_cels_listed(start, tracks@, preassigned@, pre0.len() as int),
            keys_distinct(preassigned@, pre0.len() as int),
            forall|e: int| pre0.len() <= e < preassigned@.len() ==> entry_in_families(frames@, anchor_frame, keys@, k as int, #[trigger] preassigned@[e]),
            forall|a: int, x: FrameObservation| 0 <= a < k && #[trigger] family_member(frames@, anchor_frame, (#[trigger] keys@[a])@, false, x)
                ==> listed(preassigned@, pre0.len() as int, x.0, frames@[x.0 as int]@[x.1 as int].source_layer_id),
            forall|e: int| pre0.len() <= e < preassigned@.len() ==> keyed_entry(frames@, anchor_frame, tracks@, #[trigger] preassigned@[e]),
            forall|t: int| 0 <= t < start.len() ==> (#[trigger] tracks@[t]).name_key == start[t].name_key,
            decisions@.len() - dec0.len() == preassigned@.len() - pre0.len(),
            decisions_entered(decisions@, dec0.len() as int, preassigned@, pre0.len() as int),
            forall|q: int| dec0.len() <= q < decisions@.len() ==> (#[trigger] decisions@[q]).margin <= decisions@[q].score <= 100,
            forall|q: int| dec0.len() <= q < decisions@.len() ==> instances_counted(frames@, #[trigger] decisions@[q]),
        decreases keys@.len() - k,
    {
        let ghost before_tracks = tracks@;
        let ghost before_pre = preassigned@;
        let ghost before_dec = decisions@;
        associate_family(&keys[k], frames, anchor_frame, tracks, frame_count, selectors, decisions, preassigned);
        proof {
            lemma_entered_chain(before_dec, decisions@, dec0.len() as int, before_pre, preassigned@, pre0.len() as int);
            assert forall|q: int| dec0.len() <= q < decisions@.len() implies (#[trigger] decisions@[q]).margin <= decisions@[q].score <= 100 by {
                if q < before_dec.len() {
                    assert(decisions@.take(before_dec.len() as int)[q] == decisions@[q]);
                    assert(before_dec[q].margin <= before_dec[q].score <= 100);
                }
            }
            assert forall|q: int| dec0.len() <= q < decisions@.len() implies instances_counted(frames@, #[trigger] decisions@[q]) by {
                if q < before_dec.len() {
                    assert(decisions@.take(before_dec.len() as int)[q] == decisions@[q]);
                    assert(instances_counted(frames@, before_dec[q]));
                }
            }
        }
        proof {
            assert forall|e: int| 0 <= e < before_pre.len() implies #[trigger] preassigned@[e] == before_pre[e] by {
                assert(preassigned@.take(before_pre.len() as int)[e] == preassigned@[e]);
            }
            assert forall|e: int| pre0.len() <= e < preassigned@.len() implies keyed_entry(frames@, anchor_frame, tracks@, #[trigger] preassigned@[e]) by {
                if e < before_pre.len() {
                    assert(keyed_entry(frames@, anchor_frame, before_tracks, before_pre[e]));
                    let i = choose|i: int| #[trigger] specific_outside(frames@, anchor_frame, before_pre[e].0.0 as int, i)
                        && frames@[before_pre[e].0.0 as int]@[i].source_layer_id == before_pre[e].0.1
                        && before_pre[e].1 < before_tracks.len() && before_tracks[before_pre[e].1 as int].name_key@ == frames@[before_pre[e].0.0 as int]@[i].name_key@;
                    assert(tracks@[before_pre[e].1 as int].name_key == before_tracks[before_pre[e].1 as int].name_key);
                    assert(specific_outside(frames@, anchor_frame, preassigned@[e].0.0 as int, i));
                } else {
                    assert(family_has(frames@, anchor_frame, keys@[k as int]@, preassigned@[e].0.0, preassigned@[e].0.1));
                    let i = choose|i: usize| #[trigger] family_member(frames@, anchor_frame, keys@[k as int]@, false, (preassigned@[e].0.0, i))
                        && frames@[preassigned@[e].0.0 as int]@[i as int].source_layer_id == preassigned@[e].0.1;
                    assert(specific_outside(frames@, anchor_frame, preassigned@[e].0.0 as int, i as int));
                }
            }
            assert forall|t: int| 0 <= t < start.len() implies (#[trigger] tracks@[t]).name_key == start[t].name_key by {
                assert(before_tracks[t].name_key == start[t].name_key);
            }
            lemma_families_step(frames@, anchor_frame, keys@, k as int, start, before_tracks, tracks@, pre0, before_pre, preassigned@, frame_count);
            lemma_cels_kept_chain(start, before_tracks, tracks@, frame_count);
            assert(preassigned@.take(pre0.len() as int) =~= preassigned@.take(before_pre.len() as int).take(pre0.len() as int));
            assert(decisions@.take(dec0.len() as int) =~= decisions@.take(before_dec.len() as int).take(dec0.len() as int));
            assert forall|a: int, x: FrameObservation| 0 <= a < k + 1 && #[trigger] family_member(frames@, anchor_frame, (#[trigger] keys@[a])@, false, x)
                implies listed(preassigned@, pre0.len() as int, x.0, frames@[x.0 as int]@[x.1 as int].source_layer_id) by {
                let id = frames@[x.0 as int]@[x.1 as int].source_layer_id;
                if a < k {
                    assert(listed(before_pre, pre0.len() as int, x.0, id));
                    let e = choose|e: int| pre0.len() <= e < before_pre.len() && (#[trigger] before_pre[e]).0 == (x.0, id);
                    assert(preassigned@.take(before_pre.len() as int)[e] == preassigned@[e]);
                    assert(preassigned@[e] == before_pre[e]);
                } else {
                    let e = choose|e: int| before_pre.len() <= e < preassigned@.len() && (#[trigger] preassigned@[e]).0 == (x.0, id);
                    assert(pre0.len() <= e);
                }
            }
        }
        k = k + 1;
    }
    proof {
        assert forall|e: int| pre0.len() <= e < preassigned@.len()
            implies observed_outside_anchor(frames@, anchor_frame, (#[trigger] preassigned@[e]).0.0, preassigned@[e].0.1) by {
            assert(entry_in_families(frames@, anchor_frame, keys@, k as int, preassigned@[e]));
            let x = choose|x: int| 0 <= x < k && #[trigger] family_has(frames@, anchor_frame, keys@[x]@, preassigned@[e].0.0, preassigned@[e].0.1);
            let i = choose|i: usize| #[trigger] family_member(frames@, anchor_frame, keys@[x]@, false, (preassigned@[e].0.0, i))
                && frames@[preassigned@[e].0.0 as int]@[i as int].source_layer_id == preassigned@[e].0.1;
            assert(frames@[preassigned@[e].0.0 as int]@[i as int].source_layer_id == preassigned@[e].0.1);
        }
        assert forall|x: FrameObservation| #[trigger] specific_outside(frames@, anchor_frame, x.0 as int, x.1 as int)
            implies listed(preassigned@, pre0.len() as int, x.0, frames@[x.0 as int]@[x.1 as int].source_layer_id) by {
            let a = choose|a: int| 0 <= a < keys@.len() && (#[trigger] keys@[a])@ == frames@[x.0 as int]@[x.1 as int].name_key@;
            assert(family_member(frames@, anchor_frame, keys@[a]@, false, x));
        }
        assert forall|q: int| dec0.len() <= q < decisions@.len() implies {
            let d = #[trigger] decisions@[q];
            &&& d.track_id < tracks@.len()
            &&& exists|i: int| #[trigger] specific_outside(frames@, anchor_frame, d.frame_index as int, i)
                && frames@[d.frame_index as int]@[i].source_layer_id == d.source_layer_id
                && tracks@[d.track_id as int].name_key@ == frames@[d.frame_index as int]@[i].name_key@
        } by {
            let k = q - dec0.len();
            let e = pre0.len() + k;
            assert(entry_decision(decisions@.skip(dec0.len() as int)[k], preassigned@.skip(pre0.len() as int)[k]));
            assert(decisions@.skip(dec0.len() as int)[k] == decisions@[q]);
            assert(preassigned@.skip(pre0.len() as int)[k] == preassigned@[e]);
            assert(keyed_entry(frames@, anchor_frame, tracks@, preassigned@[e]));
        }
    }
}

/// Whether an entry names an observation with a specific name outside the anchor frame
/// and a track with that observation's name key.
pub open spec fn keyed_entry(frames: Seq<Vec<Observation>>, anchor_frame: usize, tracks: Seq<TrackBuilder>, entry: ((usize, u32), usize)) -> bool {
    exists|i: int| #[trigger] specific_outside(frames, anchor_frame, entry.0.0 as int, i)
        && frames[entry.0.0 as int]@[i].source_layer_id == entry.0.1
        && entry.1 < tracks.len() && tracks[entry.1 as int].name_key@ == frames[entry.0.0 as int]@[i].name_key@
}

/// Whether an entry names an observation of one of the first `k` families.
pub open spec fn entry_in_families(frames: Seq<Vec<Observation>>, anchor_frame: usize, keys: Seq<String>, k: int, entry: ((usize, u32), usize)) -> bool {
    exists|x: int| 0 <= x < k && #[trigger] family_has(frames, anchor_frame, keys[x]@, entry.0.0, entry.0.1)
}

/// Whether frame `frame`, which is not the anchor frame, holds an observation with source
/// layer `id`.
pub open spec fn observed_outside_anchor(frames: Seq<Vec<Observation>>, anchor_frame: usize, frame: usize, id: u32) -> bool {
    &&& frame < frames.len()
    &&& frame != anchor_frame
    &&& exists|i: int| 0 <= i < frames[frame as int]@.len() && #[trigger] frames[frame as int]@[i].source_layer_id == id
}

proof fn lemma_families_step(
    frames: Seq<Vec<Observation>>,
    anchor_frame: usize,
    keys: Seq<String>,
    k: int,
    start: Seq<TrackBuilder>,
    before_tracks: Seq<TrackBuilder>,
    after_tracks: Seq<TrackBuilder>,
    pre0: Seq<((usize, u32), usize)>,
    before_pre: Seq<((usize, u32), usize)>,
    after_pre: Seq<((usize, u32), usize)>,
    frame_count: usize,
)
    requires
        0 <= k < keys.len(),
        ids_unique(frames),
        forall|a: int, b: int| 0 <= a < b < keys.len() ==> (#[trigger] keys[a])@ != (#[trigger] keys[b])@,
        tracks_wf(start, frame_count),
        tracks_wf(before_tracks, frame_count),
        tracks_wf(after_tracks, frame_count),
        cels_kept(start, before_tracks),
        cels_kept(before_tracks, after_tracks),
        pre0.len() <= before_pre.len() <= after_pre.len(),
        after_pre.take(before_pre.len() as int) == before_pre,
        new_cels_listed(start, before_tracks, before_pre, pre0.len() as int),
        new_cels_listed(before_tracks, after_tracks, after_pre, before_pre.len() as int),
        keys_distinct(before_pre, pre0.len() as int),
        keys_distinct(after_pre, before_pre.len() as int),
        entries_of_family(frames, anchor_frame, keys[k]@, after_pre, before_pre.len() as int),
        forall|e: int| pre0.len() <= e < before_pre.len() ==> entry_in_families(frames, anchor_frame, keys, k, #[trigger] before_pre[e]),
    ensures
        new_cels_listed(start, after_tracks, after_pre, pre0.len() as int),
        keys_distinct(after_pre, pre0.len() as int),
        forall|e: int| pre0.len() <= e < after_pre.len() ==> entry_in_families(frames, anchor_frame, keys, k + 1, #[trigger] after_pre[e]),
{
    assert forall|e: int| 0 <= e < before_pre.len() implies #[trigger] after_pre[e] == before_pre[e] by {
        assert(after_pre.take(before_pre.len() as int)[e] == after_pre[e]);
    }
    assert forall|t: int, g: int| 0 <= t < after_tracks.len() && 0 <= g < after_tracks[t].cels@.len() && (#[trigger] after_tracks[t].cels@[g]) is Some
        && (t >= start.len() || start[t].cels@[g] is None)
        implies exists|e: int| pre0.len() <= e < after_pre.len() && #[trigger] after_pre[e] == ((g as usize, after_tracks[t].cels@[g]->0.source_layer_id), t as usize) by {
        if t < before_tracks.len() && before_tracks[t].cels@[g] is Some {
            assert(after_tracks[t].cels@[g] == before_tracks[t].cels@[g]);
            let e = choose|e: int| pre0.len() <= e < before_pre.len() && #[trigger] before_pre[e] == ((g as usize, before_tracks[t].cels@[g]->0.source_layer_id), t as usize);
            assert(after_pre[e] == before_pre[e]);
        } else {
            let e = choose|e: int| before_pre.len() <= e < after_pre.len() && #[trigger] after_pre[e] == ((g as usize, after_tracks[t].cels@[g]->0.source_layer_id), t as usize);
        }
    }
    assert forall|e: int| pre0.len() <= e < after_pre.len() implies entry_in_families(frames, anchor_frame, keys, k + 1, #[trigger] after_pre[e]) by {
        if e < before_pre.len() {
            assert(after_pre[e] == before_pre[e]);
            assert(entry_in_families(frames, anchor_frame, keys, k, before_pre[e]));
            let x = choose|x: int| 0 <= x < k && #[trigger] family_has(frames, anchor_frame, keys[x]@, before_pre[e].0.0, before_pre[e].0.1);
            assert(family_has(frames, anchor_frame, keys[x]@, after_pre[e].0.0, after_pre[e].0.1));
        } else {
            assert(family_has(frames, anchor_frame, keys[k]@, after_pre[e].0.0, after_pre[e].0.1));
        }
    }
    assert forall|a: int, b: int| pre0.len() <= a < b < after_pre.len() implies (#[trigger] after_pre[a]).0 != (#[trigger] after_pre[b]).0 by {
        if b < before_pre.len() {
            assert(after_pre[a] == before_pre[a]);
            assert(after_pre[b] == before_pre[b]);
        } else if a >= before_pre.len() {
        } else {
            assert(after_pre[a] == before_pre[a]);
            assert(entry_in_families(frames, anchor_frame, keys, k, before_pre[a]));
            let x = choose|x: int| 0 <= x < k && #[trigger] family_has(frames, anchor_frame, keys[x]@, before_pre[a].0.0, before_pre[a].0.1);
            assert(family_has(frames, anchor_frame, keys[k]@, after_pre[b].0.0, after_pre[b].0.1));
            if after_pre[a].0 == after_pre[b].0 {
                let f = after_pre[b].0.0;
                let ia = choose|i: usize| #[trigger] family_member(frames, anchor_frame, keys[x]@, false, (f, i))
                    && frames[f as int]@[i as int].source_layer_id == after_pre[a].0.1;
                let ib = choose|i: usize| #[trigger] family_member(frames, anchor_frame, keys[k]@, false, (f, i))
                    && frames[f as int]@[i as int].source_layer_id == after_pre[b].0.1;
                if ia != ib {
                    assert(frames[f as int]@[ia as int].source_layer_id != frames[f as int]@[ib as int].source_layer_id);
                }
                assert(keys[x]@ == keys[k]@);
            }
        }
    }
}

} // verus!
