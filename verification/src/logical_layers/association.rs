//! Association of the observations of one frame with the logical tracks built so far.
use vstd::prelude::*;

use super::matching::{
    all_one_to_one, candidate_list, family_search, fill, find_best_family_matching,
    find_unique_matchings, has_candidate, lemma_family_matching_one_to_one,
    lemma_unique_matchings_one_to_one, matchings, one_to_one, tied_list, views,
};
use super::scoring::{candidate_names, candidate_score, candidate_score_of, evidence_for, has_same_pixels, holds_same_pixels, rejection_reasons};
use super::{
    copy_family_candidate_allowed, decision, exclusion_evidence, new_track, record_assignment,
    AssociationDecision, AssociationDecisionStatus, AssociationExclusionKind, AssociationPhase,
    FrameContainerInfo, Observation, PlannedCel, TrackBuilder,
};

verus! {

/// How an observation came to be assigned to an existing track.
#[derive(Debug, Clone, Copy, PartialEq, Eq, Structural)]
pub struct AssignmentMetadata {
    /// Candidate score of the assignment.
    pub score: u16,
    /// Margin over the next candidate.
    pub margin: u16,
    /// The pass that made the assignment.
    pub phase: AssociationPhase,
    /// Whether the family matcher found tied optimal assignments.
    pub matching_tie: bool,
}

/// The track an earlier pass already gave the observation `id` of frame `frame`: that of
/// the first entry for the pair.
pub open spec fn preassigned_track(preassigned: Seq<((usize, u32), usize)>, frame: usize, id: u32) -> Option<usize>
    decreases preassigned.len(),
{
    if preassigned.len() == 0 {
        None
    } else if preassigned[0].0 == (frame, id) {
        Some(preassigned[0].1)
    } else {
        preassigned_track(preassigned.drop_first(), frame, id)
    }
}

/// Whether an observation still needs a track from this frame's association.
pub open spec fn pending(preassigned: Seq<((usize, u32), usize)>, observation: Observation) -> bool {
    preassigned_track(preassigned, observation.frame_index, observation.source_layer_id) is None
}

/// The indices of the first `k` observations that still need a track, in order.
pub open spec fn pending_indices(observations: Seq<Observation>, preassigned: Seq<((usize, u32), usize)>, k: int) -> Seq<int>
    decreases k,
{
    if k <= 0 {
        Seq::empty()
    } else if pending(preassigned, observations[k - 1]) {
        pending_indices(observations, preassigned, k - 1).push(k - 1)
    } else {
        pending_indices(observations, preassigned, k - 1)
    }
}

/// Whether every track knows its own index and has one cel slot per frame.
pub open spec fn tracks_wf(tracks: Seq<TrackBuilder>, frame_count: usize) -> bool {
    forall|t: int| 0 <= t < tracks.len() ==> (#[trigger] tracks[t]).id == t && tracks[t].cels@.len() == frame_count
}

/// The cel an observation contributes to its track.
pub open spec fn cel_of(observation: Observation) -> PlannedCel {
    PlannedCel { source_layer_id: observation.source_layer_id, source_frame_index: observation.frame_index as u32, z_index: 0 }
}

/// The bookkeeping of one frame's association: every assigned track exists and is marked
/// used, no two observations share a track unless both were assigned by an earlier pass,
/// and every track that already holds a cel of the frame is marked used.
pub open spec fn claims_wf(assigned: Seq<Option<usize>>, used: Seq<bool>, fresh: Seq<bool>, tracks: Seq<TrackBuilder>, frame: int) -> bool {
    &&& assigned.len() == fresh.len()
    &&& used.len() == tracks.len()
    &&& forall|a: int| 0 <= a < assigned.len() && (#[trigger] assigned[a]) is Some ==> assigned[a]->0 < used.len() && used[assigned[a]->0 as int]
    &&& forall|a: int, b: int| 0 <= a < assigned.len() && 0 <= b < assigned.len() && a != b && fresh[a]
        && (#[trigger] assigned[a]) is Some && (#[trigger] assigned[b]) is Some ==> assigned[a] != assigned[b]
    &&& forall|t: int| 0 <= t < tracks.len() && (#[trigger] tracks[t]).cels@[frame] is Some ==> used[t]
    &&& forall|a: int| 0 <= a < assigned.len() && fresh[a] && (#[trigger] assigned[a]) is Some
        ==> tracks[assigned[a]->0 as int].cels@[frame] is None
}

fn claim(
    assigned: &mut Vec<Option<usize>>,
    used: &mut Vec<bool>,
    k: usize,
    t: usize,
    Ghost(fresh): Ghost<Seq<bool>>,
    Ghost(tracks): Ghost<Seq<TrackBuilder>>,
    Ghost(frame): Ghost<int>,
)
    requires
        claims_wf(old(assigned)@, old(used)@, fresh, tracks, frame),
        k < old(assigned)@.len(),
        t < old(used)@.len(),
        !old(used)@[t as int],
    ensures
        claims_wf(final(assigned)@, final(used)@, fresh, tracks, frame),
        final(assigned)@ == old(assigned)@.update(k as int, Some(t)),
        final(used)@ == old(used)@.update(t as int, true),
{
    let ghost before = assigned@;
    let ghost used_before = used@;
    assigned.set(k, Some(t));
    used.set(t, true);
    proof {
        let after = assigned@;
        assert forall|a: int, b: int| 0 <= a < after.len() && 0 <= b < after.len() && a != b && fresh[a]
            && (#[trigger] after[a]) is Some && (#[trigger] after[b]) is Some implies after[a] != after[b] by {
            if a == k {
                assert(before[b] is Some);
                assert(used_before[before[b]->0 as int]);
            } else if b == k {
                assert(before[a] is Some);
                assert(used_before[before[a]->0 as int]);
            } else {
                assert(before[a] is Some && before[b] is Some);
            }
        }
        assert forall|a: int| 0 <= a < after.len() && (#[trigger] after[a]) is Some implies after[a]->0 < used@.len() && used@[after[a]->0 as int] by {
            if a != k {
                assert(before[a] is Some);
            }
        }
        assert forall|u: int| 0 <= u < tracks.len() && (#[trigger] tracks[u]).cels@[frame] is Some implies used@[u] by {
            assert(used_before[u]);
        }
        assert forall|a: int| 0 <= a < after.len() && fresh[a] && (#[trigger] after[a]) is Some
            implies tracks[after[a]->0 as int].cels@[frame] is None by {
            if a == k {
                if tracks[t as int].cels@[frame] is Some {
                    assert(used_before[t as int]);
                }
            } else {
                assert(before[a] is Some);
            }
        }
    }
}

/// Whether every listed candidate names an unused track.
pub open spec fn unused_candidates(list: Seq<(usize, u16)>, used: Seq<bool>) -> bool {
    forall|e: int| 0 <= e < list.len() ==> (#[trigger] list[e]).0 < used.len() && !used[list[e].0 as int]
}

/// Whether a track can take an observation in the name pass: it has no cel in the frame,
/// a specific name and the observation's normalized name.
pub open spec fn name_fit(observation: Observation, track: TrackBuilder, frame: int) -> bool {
    &&& track.cels@[frame] is None
    &&& !track.generic_name
    &&& track.normalized_name@ == observation.normalized_name@
}

/// Whether observation `k` of the name pass had exactly one candidate, track `t`.
pub open spec fn name_claim(observations: Seq<Observation>, cmap: Seq<Vec<(usize, u16)>>, k: int, t: int) -> bool {
    &&& !observations[k].generic_name
    &&& cmap[k]@.len() == 1
    &&& cmap[k]@[0].0 == t
}

/// Whether an observation before `k` claimed track `t` in the name pass.
pub open spec fn name_claimed_before(observations: Seq<Observation>, cmap: Seq<Vec<(usize, u16)>>, k: int, t: int) -> bool {
    exists|j: int| 0 <= j < k && #[trigger] name_claim(observations, cmap, j, t)
}

/// What the name pass did for the observations below `k`: an observation with a generic
/// name is left as it was; one with a specific name lists, by ascending track and with score
/// 100, every track that fits it by name and was free when its turn came (free at the start
/// and not claimed by an earlier observation), and is assigned its only candidate where it
/// has exactly one.
pub open spec fn name_pass_done(
    observations: Seq<Observation>,
    tracks: Seq<TrackBuilder>,
    frame: int,
    k: int,
    assigned0: Seq<Option<usize>>,
    metadata0: Seq<Option<AssignmentMetadata>>,
    cmap0: Seq<Vec<(usize, u16)>>,
    used0: Seq<bool>,
    assigned: Seq<Option<usize>>,
    metadata: Seq<Option<AssignmentMetadata>>,
    cmap: Seq<Vec<(usize, u16)>>,
) -> bool {
    &&& forall|j: int| 0 <= j < k && observations[j].generic_name ==> #[trigger] assigned[j] == assigned0[j] && metadata[j] == metadata0[j] && cmap[j] == cmap0[j]
    &&& forall|j: int, e: int| 0 <= j < k && !observations[j].generic_name && 0 <= e < cmap[j]@.len() ==> {
        &&& (#[trigger] cmap[j]@[e]).1 == 100
        &&& cmap[j]@[e].0 < tracks.len()
        &&& name_fit(observations[j], tracks[cmap[j]@[e].0 as int], frame)
        &&& !used0[cmap[j]@[e].0 as int]
        &&& !name_claimed_before(observations, cmap, j, cmap[j]@[e].0 as int)
    }
    &&& forall|j: int, a: int, b: int| 0 <= j < k && !observations[j].generic_name && 0 <= a < b < cmap[j]@.len() ==> (#[trigger] cmap[j]@[a]).0 < (#[trigger] cmap[j]@[b]).0
    &&& forall|j: int, t: int| 0 <= j < k && !observations[j].generic_name && 0 <= t < tracks.len() && #[trigger] name_fit(observations[j], tracks[t], frame)
        && !used0[t] && !name_claimed_before(observations, cmap, j, t) ==> exists|e: int| 0 <= e < cmap[j]@.len() && (#[trigger] cmap[j]@[e]).0 == t
    &&& forall|j: int| 0 <= j < k && !observations[j].generic_name ==> (if cmap[j]@.len() == 1 {
        #[trigger] assigned[j] == Some(cmap[j]@[0].0) && metadata[j] == Some(AssignmentMetadata { score: 100, margin: 100, phase: AssociationPhase::Anchor, matching_tie: false })
    } else {
        #[trigger] assigned[j] == assigned0[j] && metadata[j] == metadata0[j]
    })
}

#[verifier::spinoff_prover]
fn anchor_phase(
    observations: &Vec<Observation>,
    tracks: &Vec<TrackBuilder>,
    frame: usize,
    frame_count: usize,
    assigned: &mut Vec<Option<usize>>,
    metadata: &mut Vec<Option<AssignmentMetadata>>,
    used: &mut Vec<bool>,
    candidate_map: &mut Vec<Vec<(usize, u16)>>,
    Ghost(fresh): Ghost<Seq<bool>>,
)
    requires
        frame < frame_count,
        tracks_wf(tracks@, frame_count),
        claims_wf(old(assigned)@, old(used)@, fresh, tracks@, frame as int),
        old(assigned)@.len() == observations@.len(),
        old(metadata)@.len() == observations@.len(),
        old(candidate_map)@.len() == observations@.len(),
    ensures
        claims_wf(final(assigned)@, final(used)@, fresh, tracks@, frame as int),
        final(metadata)@.len() == observations@.len(),
        final(candidate_map)@.len() == observations@.len(),
        name_pass_done(observations@, tracks@, frame as int, observations@.len() as int, old(assigned)@, old(metadata)@, old(candidate_map)@, old(used)@,
            final(assigned)@, final(metadata)@, final(candidate_map)@),
        forall|t: int| 0 <= t < tracks@.len() ==> #[trigger] final(used)@[t] == (old(used)@[t]
            || name_claimed_before(observations@, final(candidate_map)@, observations@.len() as int, t)),
{
    let ghost assigned0 = assigned@;
    let ghost metadata0 = metadata@;
    let ghost cmap0 = candidate_map@;
    let ghost used0 = used@;
    let mut k: usize = 0;
    while k < observations.len()
        invariant
            frame < frame_count,
            tracks_wf(tracks@, frame_count),
            claims_wf(assigned@, used@, fresh, tracks@, frame as int),
            assigned@.len() == observations@.len(),
            metadata@.len() == observations@.len(),
            candidate_map@.len() == observations@.len(),
            used0.len() == tracks@.len(),
            assigned0.len() == observations@.len(),
            metadata0.len() == observations@.len(),
            cmap0.len() == observations@.len(),
            k <= observations@.len(),
            forall|j: int| k <= j < observations@.len() ==> #[trigger] assigned@[j] == assigned0[j],
            forall|j: int| k <= j < observations@.len() ==> #[trigger] metadata@[j] == metadata0[j],
            forall|j: int| k <= j < observations@.len() ==> #[trigger] candidate_map@[j] == cmap0[j],
            name_pass_done(observations@, tracks@, frame as int, k as int, assigned0, metadata0, cmap0, used0, assigned@, metadata@, candidate_map@),
            forall|t: int| 0 <= t < tracks@.len() ==> #[trigger] used@[t] == (used0[t] || name_claimed_before(observations@, candidate_map@, k as int, t)),
        decreases observations@.len() - k,
    {
        let observation = &observations[k];
        let ghost cmap_before = candidate_map@;
        let ghost assigned_before = assigned@;
        let ghost metadata_before = metadata@;
        let ghost used_before = used@;
        if !observation.generic_name {
            let mut candidates: Vec<(usize, u16)> = Vec::new();
            let mut t: usize = 0;
            while t < tracks.len()
                invariant
                    frame < frame_count,
                    tracks_wf(tracks@, frame_count),
                    used@.len() == tracks@.len(),
                    t <= tracks@.len(),
                    unused_candidates(candidates@, used@),
                    forall|e: int| 0 <= e < candidates@.len() ==> (#[trigger] candidates@[e]).1 == 100 && candidates@[e].0 < t
                        && name_fit(*observation, tracks@[candidates@[e].0 as int], frame as int),
                    forall|a: int, b: int| 0 <= a < b < candidates@.len() ==> (#[trigger] candidates@[a]).0 < (#[trigger] candidates@[b]).0,
                    forall|u: int| 0 <= u < t && #[trigger] name_fit(*observation, tracks@[u], frame as int) && !used@[u]
                        ==> exists|e: int| 0 <= e < candidates@.len() && (#[trigger] candidates@[e]).0 == u,
                decreases tracks@.len() - t,
            {
                let track = &tracks[t];
                let ghost cands_before = candidates@;
                if !used[t] && track.cels[frame].is_none() && !track.generic_name && observation.normalized_name == track.normalized_name {
                    candidates.push((t, 100));
                    proof {
                        assert(candidates@[cands_before.len() as int] == (t, 100u16));
                        assert forall|u: int| 0 <= u < t + 1 && #[trigger] name_fit(*observation, tracks@[u], frame as int) && !used@[u]
                            implies exists|e: int| 0 <= e < candidates@.len() && (#[trigger] candidates@[e]).0 == u by {
                            if u < t {
                                let e = choose|e: int| 0 <= e < cands_before.len() && (#[trigger] cands_before[e]).0 == u;
                                assert(candidates@[e] == cands_before[e]);
                            } else {
                                assert(candidates@[cands_before.len() as int].0 == u);
                            }
                        }
                    }
                }
                t = t + 1;
            }
            let ghost cands = candidates@;
            if candidates.len() == 1 {
                let chosen = candidates[0].0;
                claim(assigned, used, k, chosen, Ghost(fresh), Ghost(tracks@), Ghost(frame as int));
                metadata.set(k, Some(AssignmentMetadata { score: 100, margin: 100, phase: AssociationPhase::Anchor, matching_tie: false }));
            }
            candidate_map.set(k, candidates);
            proof {
                let cm = candidate_map@;
                assert(cm[k as int]@ == cands);
                assert forall|j: int, t2: int| 0 <= j <= k && 0 <= t2 < tracks@.len()
                    implies name_claimed_before(observations@, cm, j, t2) == name_claimed_before(observations@, cmap_before, j, t2) by {
                    if name_claimed_before(observations@, cm, j, t2) {
                        let w = choose|w: int| 0 <= w < j && #[trigger] name_claim(observations@, cm, w, t2);
                        assert(cm[w] == cmap_before[w]);
                        assert(name_claim(observations@, cmap_before, w, t2));
                    }
                    if name_claimed_before(observations@, cmap_before, j, t2) {
                        let w = choose|w: int| 0 <= w < j && #[trigger] name_claim(observations@, cmap_before, w, t2);
                        assert(cm[w] == cmap_before[w]);
                        assert(name_claim(observations@, cm, w, t2));
                    }
                }
                assert forall|t2: int| 0 <= t2 < tracks@.len() implies #[trigger] used@[t2] == (used0[t2] || name_claimed_before(observations@, cm, k + 1, t2)) by {
                    if name_claim(observations@, cm, k as int, t2) {
                        assert(name_claimed_before(observations@, cm, k + 1, t2));
                    }
                    if name_claimed_before(observations@, cm, k + 1, t2) {
                        let w = choose|w: int| 0 <= w < k + 1 && #[trigger] name_claim(observations@, cm, w, t2);
                        if w < k {
                            assert(name_claimed_before(observations@, cm, k as int, t2));
                        }
                    } else {
                        assert(!name_claim(observations@, cm, k as int, t2));
                        if name_claimed_before(observations@, cmap_before, k as int, t2) {
                            assert(name_claimed_before(observations@, cm, k as int, t2));
                            let w = choose|w: int| 0 <= w < k && #[trigger] name_claim(observations@, cm, w, t2);
                            assert(name_claimed_before(observations@, cm, k + 1, t2));
                        }
                    }
                }
                assert forall|e: int| 0 <= e < cands.len() implies !name_claimed_before(observations@, cm, k as int, (#[trigger] cands[e]).0 as int) by {
                    assert(!used_before[cands[e].0 as int]);
                }
                assert forall|t2: int| 0 <= t2 < tracks@.len() && #[trigger] name_fit(observations@[k as int], tracks@[t2], frame as int)
                    && !used0[t2] && !name_claimed_before(observations@, cm, k as int, t2) implies exists|e: int| 0 <= e < cm[k as int]@.len() && (#[trigger] cm[k as int]@[e]).0 == t2 by {
                    assert(!used_before[t2]);
                }
                assert forall|j: int| k + 1 <= j < observations@.len() implies #[trigger] assigned@[j] == assigned0[j] by {
                    assert(assigned@[j] == assigned_before[j]);
                }
                assert forall|j: int| k + 1 <= j < observations@.len() implies #[trigger] metadata@[j] == metadata0[j] by {
                    assert(metadata@[j] == metadata_before[j]);
                }
                assert forall|j: int| k + 1 <= j < observations@.len() implies #[trigger] cm[j] == cmap0[j] by {
                    assert(cm[j] == cmap_before[j]);
                }
                assert forall|j: int| 0 <= j < k ==> #[trigger] assigned@[j] == assigned_before[j] && metadata@[j] == metadata_before[j] && cm[j] == cmap_before[j] by {}
                let a = assigned@;
                let m = metadata@;
                assert forall|j: int| 0 <= j < k + 1 && observations@[j].generic_name implies #[trigger] a[j] == assigned0[j] && m[j] == metadata0[j] && cm[j] == cmap0[j] by {
                    if j < k {
                        assert(a[j] == assigned_before[j]);
                    }
                }
                assert forall|j: int, e: int| 0 <= j < k + 1 && !observations@[j].generic_name && 0 <= e < cm[j]@.len() implies {
                    &&& (#[trigger] cm[j]@[e]).1 == 100
                    &&& cm[j]@[e].0 < tracks@.len()
                    &&& name_fit(observations@[j], tracks@[cm[j]@[e].0 as int], frame as int)
                    &&& !used0[cm[j]@[e].0 as int]
                    &&& !name_claimed_before(observations@, cm, j, cm[j]@[e].0 as int)
                } by {
                    if j < k {
                        assert(cm[j] == cmap_before[j]);
                        assert(!name_claimed_before(observations@, cmap_before, j, cmap_before[j]@[e].0 as int));
                    } else {
                        assert(cm[j]@[e] == cands[e]);
                    }
                }
                assert forall|j: int, x: int, y: int| 0 <= j < k + 1 && !observations@[j].generic_name && 0 <= x < y < cm[j]@.len() implies (#[trigger] cm[j]@[x]).0 < (#[trigger] cm[j]@[y]).0 by {
                    if j < k {
                        assert(cm[j] == cmap_before[j]);
                    }
                }
                assert forall|j: int, t2: int| 0 <= j < k + 1 && !observations@[j].generic_name && 0 <= t2 < tracks@.len() && #[trigger] name_fit(observations@[j], tracks@[t2], frame as int)
                    && !used0[t2] && !name_claimed_before(observations@, cm, j, t2) implies exists|e: int| 0 <= e < cm[j]@.len() && (#[trigger] cm[j]@[e]).0 == t2 by {
                    if j < k {
                        assert(cm[j] == cmap_before[j]);
                        assert(!name_claimed_before(observations@, cmap_before, j, t2));
                        let e = choose|e: int| 0 <= e < cmap_before[j]@.len() && (#[trigger] cmap_before[j]@[e]).0 == t2;
                        assert(cm[j]@[e].0 == t2);
                    }
                }
                assert forall|j: int| 0 <= j < k + 1 && !observations@[j].generic_name implies (if cm[j]@.len() == 1 {
                    #[trigger] a[j] == Some(cm[j]@[0].0) && m[j] == Some(AssignmentMetadata { score: 100, margin: 100, phase: AssociationPhase::Anchor, matching_tie: false })
                } else {
                    #[trigger] a[j] == assigned0[j] && m[j] == metadata0[j]
                }) by {
                    if j < k {
                        assert(cm[j] == cmap_before[j]);
                        assert(a[j] == assigned_before[j]);
                    }
                }
                assert(name_pass_done(observations@, tracks@, frame as int, k + 1, assigned0, metadata0, cmap0, used0, assigned@, metadata@, cm));
            }
        } else {
            proof {
                assert forall|t2: int| 0 <= t2 < tracks@.len() implies #[trigger] used@[t2] == (used0[t2] || name_claimed_before(observations@, candidate_map@, k + 1, t2)) by {
                    if name_claimed_before(observations@, candidate_map@, k + 1, t2) {
                        let w = choose|w: int| 0 <= w < k + 1 && #[trigger] name_claim(observations@, candidate_map@, w, t2);
                        assert(w < k);
                    }
                }
                assert(assigned@[k as int] == assigned0[k as int]);
                assert(name_pass_done(observations@, tracks@, frame as int, k + 1, assigned0, metadata0, cmap0, used0, assigned@, metadata@, candidate_map@));
            }
        }
        k = k + 1;
    }
}

/// Whether observation `k`, unassigned when the exact-pixel pass began, had exactly one
/// candidate in that pass, track `t`.
pub open spec fn pixel_claim(assigned0: Seq<Option<usize>>, cmap: Seq<Vec<(usize, u16)>>, k: int, t: int) -> bool {
    &&& assigned0[k] is None
    &&& cmap[k]@.len() == 1
    &&& cmap[k]@[0].0 == t
}

/// Whether an observation before `k` claimed track `t` in the exact-pixel pass.
pub open spec fn pixel_claimed_before(assigned0: Seq<Option<usize>>, cmap: Seq<Vec<(usize, u16)>>, k: int, t: int) -> bool {
    exists|j: int| 0 <= j < k && #[trigger] pixel_claim(assigned0, cmap, j, t)
}

/// What the exact-pixel pass did for the observations below `k`: an observation assigned
/// before the pass is left as it was; an unassigned one lists, by ascending track and with
/// score 100, every track whose earlier observations include its exact pixels and that was
/// free when its turn came, and is assigned its only candidate where it has exactly one.
pub open spec fn pixel_pass_done(
    observations: Seq<Observation>,
    tracks: Seq<TrackBuilder>,
    k: int,
    assigned0: Seq<Option<usize>>,
    metadata0: Seq<Option<AssignmentMetadata>>,
    cmap0: Seq<Vec<(usize, u16)>>,
    used0: Seq<bool>,
    assigned: Seq<Option<usize>>,
    metadata: Seq<Option<AssignmentMetadata>>,
    cmap: Seq<Vec<(usize, u16)>>,
) -> bool {
    &&& forall|j: int| 0 <= j < k && assigned0[j] is Some ==> #[trigger] assigned[j] == assigned0[j] && metadata[j] == metadata0[j] && cmap[j] == cmap0[j]
    &&& forall|j: int, e: int| 0 <= j < k && assigned0[j] is None && 0 <= e < cmap[j]@.len() ==> {
        &&& (#[trigger] cmap[j]@[e]).1 == 100
        &&& cmap[j]@[e].0 < tracks.len()
        &&& has_same_pixels(observations[j], tracks[cmap[j]@[e].0 as int].observations@)
        &&& !used0[cmap[j]@[e].0 as int]
        &&& !pixel_claimed_before(assigned0, cmap, j, cmap[j]@[e].0 as int)
    }
    &&& forall|j: int, a: int, b: int| 0 <= j < k && assigned0[j] is None && 0 <= a < b < cmap[j]@.len() ==> (#[trigger] cmap[j]@[a]).0 < (#[trigger] cmap[j]@[b]).0
    &&& forall|j: int, t: int| 0 <= j < k && assigned0[j] is None && 0 <= t < tracks.len() && #[trigger] has_same_pixels(observations[j], tracks[t].observations@)
        && !used0[t] && !pixel_claimed_before(assigned0, cmap, j, t) ==> exists|e: int| 0 <= e < cmap[j]@.len() && (#[trigger] cmap[j]@[e]).0 == t
    &&& forall|j: int| 0 <= j < k && assigned0[j] is None ==> (if cmap[j]@.len() == 1 {
        #[trigger] assigned[j] == Some(cmap[j]@[0].0) && metadata[j] == Some(AssignmentMetadata { score: 100, margin: 100, phase: AssociationPhase::ExactPixels, matching_tie: false })
    } else {
        #[trigger] assigned[j] == assigned0[j] && metadata[j] == metadata0[j]
    })
}

#[verifier::spinoff_prover]
fn exact_pixels_phase(
    observations: &Vec<Observation>,
    tracks: &Vec<TrackBuilder>,
    frame: usize,
    assigned: &mut Vec<Option<usize>>,
    metadata: &mut Vec<Option<AssignmentMetadata>>,
    used: &mut Vec<bool>,
    candidate_map: &mut Vec<Vec<(usize, u16)>>,
    Ghost(fresh): Ghost<Seq<bool>>,
)
    requires
        claims_wf(old(assigned)@, old(used)@, fresh, tracks@, frame as int),
        old(assigned)@.len() == observations@.len(),
        old(metadata)@.len() == observations@.len(),
        old(candidate_map)@.len() == observations@.len(),
    ensures
        claims_wf(final(assigned)@, final(used)@, fresh, tracks@, frame as int),
        final(metadata)@.len() == observations@.len(),
        final(candidate_map)@.len() == observations@.len(),
        pixel_pass_done(observations@, tracks@, observations@.len() as int, old(assigned)@, old(metadata)@, old(candidate_map)@, old(used)@,
            final(assigned)@, final(metadata)@, final(candidate_map)@),
        forall|t: int| 0 <= t < tracks@.len() ==> #[trigger] final(used)@[t] == (old(used)@[t]
            || pixel_claimed_before(old(assigned)@, final(candidate_map)@, observations@.len() as int, t)),
{
    let ghost assigned0 = assigned@;
    let ghost metadata0 = metadata@;
    let ghost cmap0 = candidate_map@;
    let ghost used0 = used@;
    let mut k: usize = 0;
    while k < observations.len()
        invariant
            claims_wf(assigned@, used@, fresh, tracks@, frame as int),
            assigned@.len() == observations@.len(),
            metadata@.len() == observations@.len(),
            candidate_map@.len() == observations@.len(),
            used0.len() == tracks@.len(),
            assigned0.len() == observations@.len(),
            metadata0.len() == observations@.len(),
            cmap0.len() == observations@.len(),
            k <= observations@.len(),
            forall|j: int| k <= j < observations@.len() ==> #[trigger] assigned@[j] == assigned0[j],
            forall|j: int| k <= j < observations@.len() ==> #[trigger] metadata@[j] == metadata0[j],
            forall|j: int| k <= j < observations@.len() ==> #[trigger] candidate_map@[j] == cmap0[j],
            pixel_pass_done(observations@, tracks@, k as int, assigned0, metadata0, cmap0, used0, assigned@, metadata@, candidate_map@),
            forall|t: int| 0 <= t < tracks@.len() ==> #[trigger] used@[t] == (used0[t] || pixel_claimed_before(assigned0, candidate_map@, k as int, t)),
        decreases observations@.len() - k,
    {
        let ghost cmap_before = candidate_map@;
        let ghost assigned_before = assigned@;
        let ghost metadata_before = metadata@;
        let ghost used_before = used@;
        if assigned[k].is_none() {
            let observation = &observations[k];
            let mut candidates: Vec<(usize, u16)> = Vec::new();
            let mut t: usize = 0;
            while t < tracks.len()
                invariant
                    used@.len() == tracks@.len(),
                    t <= tracks@.len(),
                    unused_candidates(candidates@, used@),
                    forall|e: int| 0 <= e < candidates@.len() ==> (#[trigger] candidates@[e]).1 == 100 && candidates@[e].0 < t
                        && has_same_pixels(*observation, tracks@[candidates@[e].0 as int].observations@),
                    forall|a: int, b: int| 0 <= a < b < candidates@.len() ==> (#[trigger] candidates@[a]).0 < (#[trigger] candidates@[b]).0,
                    forall|u: int| 0 <= u < t && #[trigger] has_same_pixels(*observation, tracks@[u].observations@) && !used@[u]
                        ==> exists|e: int| 0 <= e < candidates@.len() && (#[trigger] candidates@[e]).0 == u,
                decreases tracks@.len() - t,
            {
                let ghost cands_before = candidates@;
                if !used[t] && holds_same_pixels(observation, &tracks[t]) {
                    candidates.push((t, 100));
                    proof {
                        assert(candidates@[cands_before.len() as int] == (t, 100u16));
                        assert forall|u: int| 0 <= u < t + 1 && #[trigger] has_same_pixels(*observation, tracks@[u].observations@) && !used@[u]
                            implies exists|e: int| 0 <= e < candidates@.len() && (#[trigger] candidates@[e]).0 == u by {
                            if u < t {
                                let e = choose|e: int| 0 <= e < cands_before.len() && (#[trigger] cands_before[e]).0 == u;
                                assert(candidates@[e] == cands_before[e]);
                            } else {
                                assert(candidates@[cands_before.len() as int].0 == u);
                            }
                        }
                    }
                }
                t = t + 1;
            }
            let ghost cands = candidates@;
            if candidates.len() == 1 {
                let chosen = candidates[0].0;
                claim(assigned, used, k, chosen, Ghost(fresh), Ghost(tracks@), Ghost(frame as int));
                metadata.set(k, Some(AssignmentMetadata { score: 100, margin: 100, phase: AssociationPhase::ExactPixels, matching_tie: false }));
            }
            candidate_map.set(k, candidates);
            proof {
                let cm = candidate_map@;
                let a = assigned@;
                let m = metadata@;
                assert(cm[k as int]@ == cands);
                assert(assigned0[k as int] is None);
                assert forall|j: int| k + 1 <= j < observations@.len() implies #[trigger] assigned@[j] == assigned0[j] by {
                    assert(assigned@[j] == assigned_before[j]);
                }
                assert forall|j: int| k + 1 <= j < observations@.len() implies #[trigger] metadata@[j] == metadata0[j] by {
                    assert(metadata@[j] == metadata_before[j]);
                }
                assert forall|j: int| k + 1 <= j < observations@.len() implies #[trigger] cm[j] == cmap0[j] by {
                    assert(cm[j] == cmap_before[j]);
                }
                assert forall|j: int, t2: int| 0 <= j <= k && 0 <= t2 < tracks@.len()
                    implies pixel_claimed_before(assigned0, cm, j, t2) == pixel_claimed_before(assigned0, cmap_before, j, t2) by {
                    if pixel_claimed_before(assigned0, cm, j, t2) {
                        let w = choose|w: int| 0 <= w < j && #[trigger] pixel_claim(assigned0, cm, w, t2);
                        assert(cm[w] == cmap_before[w]);
                        assert(pixel_claim(assigned0, cmap_before, w, t2));
                    }
                    if pixel_claimed_before(assigned0, cmap_before, j, t2) {
                        let w = choose|w: int| 0 <= w < j && #[trigger] pixel_claim(assigned0, cmap_before, w, t2);
                        assert(cm[w] == cmap_before[w]);
                        assert(pixel_claim(assigned0, cm, w, t2));
                    }
                }
                assert forall|t2: int| 0 <= t2 < tracks@.len() implies #[trigger] used@[t2] == (used0[t2] || pixel_claimed_before(assigned0, cm, k + 1, t2)) by {
                    if pixel_claim(assigned0, cm, k as int, t2) {
                        assert(pixel_claimed_before(assigned0, cm, k + 1, t2));
                    }
                    if pixel_claimed_before(assigned0, cm, k + 1, t2) {
                        let w = choose|w: int| 0 <= w < k + 1 && #[trigger] pixel_claim(assigned0, cm, w, t2);
                        if w < k {
                            assert(pixel_claimed_before(assigned0, cm, k as int, t2));
                        }
                    } else {
                        assert(!pixel_claim(assigned0, cm, k as int, t2));
                        if pixel_claimed_before(assigned0, cmap_before, k as int, t2) {
                            assert(pixel_claimed_before(assigned0, cm, k as int, t2));
                            assert(pixel_claimed_before(assigned0, cm, k + 1, t2));
                        }
                    }
                }
                assert forall|j: int| 0 <= j < k + 1 && assigned0[j] is Some implies #[trigger] a[j] == assigned0[j] && m[j] == metadata0[j] && cm[j] == cmap0[j] by {
                    if j < k {
                        assert(a[j] == assigned_before[j]);
                        assert(m[j] == metadata_before[j]);
                        assert(cm[j] == cmap_before[j]);
                    }
                }
                assert forall|j: int, e: int| 0 <= j < k + 1 && assigned0[j] is None && 0 <= e < cm[j]@.len() implies {
                    &&& (#[trigger] cm[j]@[e]).1 == 100
                    &&& cm[j]@[e].0 < tracks@.len()
                    &&& has_same_pixels(observations@[j], tracks@[cm[j]@[e].0 as int].observations@)
                    &&& !used0[cm[j]@[e].0 as int]
                    &&& !pixel_claimed_before(assigned0, cm, j, cm[j]@[e].0 as int)
                } by {
                    if j < k {
                        assert(cm[j] == cmap_before[j]);
                        assert(!pixel_claimed_before(assigned0, cmap_before, j, cmap_before[j]@[e].0 as int));
                    } else {
                        assert(cm[j]@[e] == cands[e]);
                        assert(!used_before[cands[e].0 as int]);
                    }
                }
                assert forall|j: int, x: int, y: int| 0 <= j < k + 1 && assigned0[j] is None && 0 <= x < y < cm[j]@.len() implies (#[trigger] cm[j]@[x]).0 < (#[trigger] cm[j]@[y]).0 by {
                    if j < k {
                        assert(cm[j] == cmap_before[j]);
                    }
                }
                assert forall|j: int, t2: int| 0 <= j < k + 1 && assigned0[j] is None && 0 <= t2 < tracks@.len() && #[trigger] has_same_pixels(observations@[j], tracks@[t2].observations@)
                    && !used0[t2] && !pixel_claimed_before(assigned0, cm, j, t2) implies exists|e: int| 0 <= e < cm[j]@.len() && (#[trigger] cm[j]@[e]).0 == t2 by {
                    if j < k {
                        assert(cm[j] == cmap_before[j]);
                        assert(!pixel_claimed_before(assigned0, cmap_before, j, t2));
                        let e = choose|e: int| 0 <= e < cmap_before[j]@.len() && (#[trigger] cmap_before[j]@[e]).0 == t2;
                        assert(cm[j]@[e].0 == t2);
                    } else {
                        assert(!used_before[t2]);
                    }
                }
                assert forall|j: int| 0 <= j < k + 1 && assigned0[j] is None implies (if cm[j]@.len() == 1 {
                    #[trigger] a[j] == Some(cm[j]@[0].0) && m[j] == Some(AssignmentMetadata { score: 100, margin: 100, phase: AssociationPhase::ExactPixels, matching_tie: false })
                } else {
                    #[trigger] a[j] == assigned0[j] && m[j] == metadata0[j]
                }) by {
                    if j < k {
                        assert(cm[j] == cmap_before[j]);
                        assert(a[j] == assigned_before[j]);
                        assert(m[j] == metadata_before[j]);
                    }
                }
                assert(pixel_pass_done(observations@, tracks@, k + 1, assigned0, metadata0, cmap0, used0, assigned@, metadata@, cm));
            }
        } else {
            proof {
                assert forall|t2: int| 0 <= t2 < tracks@.len() implies #[trigger] used@[t2] == (used0[t2] || pixel_claimed_before(assigned0, candidate_map@, k + 1, t2)) by {
                    if pixel_claimed_before(assigned0, candidate_map@, k + 1, t2) {
                        let w = choose|w: int| 0 <= w < k + 1 && #[trigger] pixel_claim(assigned0, candidate_map@, w, t2);
                        assert(w < k);
                    }
                }
                assert(assigned@[k as int] == assigned0[k as int]);
                assert(metadata@[k as int] == metadata0[k as int]);
                assert(candidate_map@[k as int] == cmap0[k as int]);
                assert(pixel_pass_done(observations@, tracks@, k + 1, assigned0, metadata0, cmap0, used0, assigned@, metadata@, candidate_map@));
            }
        }
        k = k + 1;
    }
}

/// Candidate order: the higher score first, then the lower track.
pub open spec fn candidate_order() -> spec_fn((usize, u16), (usize, u16)) -> bool {
    |a: (usize, u16), b: (usize, u16)| a.1 > b.1 || (a.1 == b.1 && a.0 <= b.0)
}

proof fn lemma_candidate_order_total()
    ensures
        vstd::relations::total_ordering(candidate_order()),
{
    let r = candidate_order();
    assert forall|a: (usize, u16), b: (usize, u16)| #[trigger] r(a, b) && #[trigger] r(b, a) implies a == b by {
        assert(a.0 == b.0 && a.1 == b.1);
    }
}

/// Sorts candidates by descending score, then by track.
pub fn sort_candidates(values: Vec<(usize, u16)>) -> (sorted: Vec<(usize, u16)>)
    ensures
        sorted@ == values@.sort_by(candidate_order()),
        sorted@.to_multiset() == values@.to_multiset(),
{
    proof {
        lemma_candidate_order_total();
    }
    let ghost leq = candidate_order();
    let mut sorted: Vec<(usize, u16)> = Vec::new();
    assert(values@.take(0) =~= sorted@);
    let mut i: usize = 0;
    while i < values.len()
        invariant
            leq == candidate_order(),
            vstd::relations::total_ordering(leq),
            i <= values@.len(),
            vstd::relations::sorted_by(sorted@, leq),
            sorted@.to_multiset() == values@.take(i as int).to_multiset(),
        decreases values@.len() - i,
    {
        let x = values[i];
        let mut p: usize = 0;
        while p < sorted.len() && (sorted[p].1 > x.1 || (sorted[p].1 == x.1 && sorted[p].0 <= x.0))
            invariant
                leq == candidate_order(),
                p <= sorted@.len(),
                forall|k: int| 0 <= k < p ==> #[trigger] leq(sorted@[k], x),
            decreases sorted@.len() - p,
        {
            p = p + 1;
        }
        let ghost before = sorted@;
        proof {
            if p < before.len() {
                assert(leq(x, before[p as int]));
                assert forall|k: int| p <= k < before.len() implies #[trigger] leq(x, before[k]) by {
                    if k > p {
                        assert(leq(before[p as int], before[k]));
                    }
                }
            }
        }
        sorted.insert(p, x);
        proof {
            vstd::seq_lib::to_multiset_insert(before, p as int, x);
            assert(values@.take(i as int + 1) == values@.take(i as int).push(x));
            vstd::seq_lib::to_multiset_build(values@.take(i as int), x);
            assert forall|a: int, c: int| 0 <= a < c < sorted@.len() implies #[trigger] leq(sorted@[a], sorted@[c]) by {
                if a < p && c < p {
                    assert(leq(before[a], before[c]));
                } else if a < p && c == p {
                } else if a < p && c > p {
                    assert(leq(before[a], before[c - 1]));
                } else if a == p {
                } else {
                    assert(leq(before[a - 1], before[c - 1]));
                }
            }
        }
        i = i + 1;
    }
    proof {
        assert(values@.take(values@.len() as int) == values@);
        values@.lemma_sort_by_ensures(leq);
        vstd::seq_lib::lemma_sorted_unique(sorted@, values@.sort_by(leq), leq);
    }
    sorted
}

proof fn lemma_sorted_unused(sorted: Seq<(usize, u16)>, values: Seq<(usize, u16)>, used: Seq<bool>)
    requires
        sorted.to_multiset() == values.to_multiset(),
        unused_candidates(values, used),
    ensures
        unused_candidates(sorted, used),
{
    broadcast use vstd::multiset::group_multiset_axioms;
    assert forall|e: int| 0 <= e < sorted.len() implies (#[trigger] sorted[e]).0 < used.len() && !used[sorted[e].0 as int] by {
        vstd::seq_lib::to_multiset_contains(sorted, sorted[e]);
        assert(sorted.contains(sorted[e]));
        assert(sorted.to_multiset().count(sorted[e]) > 0);
        vstd::seq_lib::to_multiset_contains(values, sorted[e]);
        let w = choose|w: int| 0 <= w < values.len() && values[w] == sorted[e];
        assert(values[w] == sorted[e]);
    }
}

/// Whether every pair names an observation below `n` and an unused track.
pub open spec fn claimable(pairs: Seq<(usize, usize)>, used: Seq<bool>, n: int) -> bool {
    forall|q: int| 0 <= q < pairs.len() ==> (#[trigger] pairs[q]).0 < n && pairs[q].1 < used.len() && !used[pairs[q].1 as int]
}

proof fn lemma_claimable(pairs: Seq<(usize, usize)>, members: Seq<usize>, cmap: Seq<Vec<(usize, u16)>>, used: Seq<bool>)
    requires
        one_to_one(pairs, members, views(cmap)),
        forall|i: int| 0 <= i < members.len() ==> (#[trigger] members[i]) < cmap.len() && unused_candidates(cmap[members[i] as int]@, used),
    ensures
        claimable(pairs, used, cmap.len() as int),
{
    assert forall|q: int| 0 <= q < pairs.len() implies (#[trigger] pairs[q]).0 < cmap.len() && pairs[q].1 < used.len() && !used[pairs[q].1 as int] by {
        let k = pairs[q].0;
        assert(members.contains(k));
        let i = choose|i: int| 0 <= i < members.len() && members[i] == k;
        assert(members[i] < cmap.len());
        assert(has_candidate(views(cmap), pairs[q]));
        let j = choose|j: int| 0 <= j < candidate_list(views(cmap), k).len() && (#[trigger] candidate_list(views(cmap), k)[j]).0 == pairs[q].1;
        assert(candidate_list(views(cmap), k) == cmap[k as int]@);
        assert(unused_candidates(cmap[k as int]@, used));
        assert(cmap[k as int]@[j] == candidate_list(views(cmap), k)[j]);
    }
}

proof fn lemma_claim_rest(pairs: Seq<(usize, usize)>, members: Seq<usize>, candidates: Seq<Seq<(usize, u16)>>, used: Seq<bool>, n: int, p: int)
    requires
        one_to_one(pairs, members, candidates),
        0 <= p < pairs.len(),
        claimable(pairs.skip(p), used, n),
    ensures
        claimable(pairs.skip(p + 1), used.update(pairs[p].1 as int, true), n),
{
    let rest = pairs.skip(p + 1);
    assert(pairs.skip(p)[0] == pairs[p]);
    let after = used.update(pairs[p].1 as int, true);
    assert forall|q: int| 0 <= q < rest.len() implies (#[trigger] rest[q]).0 < n && rest[q].1 < after.len() && !after[rest[q].1 as int] by {
        assert(rest[q] == pairs[p + 1 + q]);
        assert(pairs.skip(p)[q + 1] == pairs[p + 1 + q]);
        assert(pairs[p].1 != pairs[p + 1 + q].1);
        assert(pairs.skip(p)[q + 1].1 < used.len() && !used[pairs.skip(p)[q + 1].1 as int]);
    }
}

proof fn lemma_skip_claimable(pairs: Seq<(usize, usize)>, used: Seq<bool>, n: int, p: int)
    requires
        0 <= p < pairs.len(),
        claimable(pairs.skip(p), used, n),
    ensures
        claimable(pairs.skip(p + 1), used, n),
{
    assert forall|q: int| 0 <= q < pairs.skip(p + 1).len() implies (#[trigger] pairs.skip(p + 1)[q]).0 < n
        && pairs.skip(p + 1)[q].1 < used.len() && !used[pairs.skip(p + 1)[q].1 as int] by {
        assert(pairs.skip(p + 1)[q] == pairs.skip(p)[q + 1]);
    }
}

fn contains_index(list: &Vec<usize>, value: usize) -> (found: bool)
    ensures
        found == list@.contains(value),
{
    let mut i: usize = 0;
    while i < list.len()
        invariant
            i <= list@.len(),
            forall|k: int| 0 <= k < i ==> list@[k] != value,
        decreases list@.len() - i,
    {
        if list[i] == value {
            assert(list@[i as int] == value);
            return true;
        }
        i = i + 1;
    }
    false
}

/// Whether `k` names an unassigned observation with a specific name.
pub open spec fn groupable(observations: Seq<Observation>, assigned: Seq<Option<usize>>, k: int) -> bool {
    &&& 0 <= k < observations.len()
    &&& assigned[k] is None
    &&& !observations[k].generic_name
}

/// Whether the families group the groupable observations below `n` by name key: each
/// family is a nonempty increasing list of groupable observations of one key, no two
/// families share a key, families come in order of their first member, and every groupable
/// observation below `n` is in a family.
pub open spec fn grouped(families: Seq<Vec<usize>>, observations: Seq<Observation>, assigned: Seq<Option<usize>>, n: int) -> bool {
    &&& forall|f: int| 0 <= f < families.len() ==> (#[trigger] families[f])@.len() > 0
    &&& forall|f: int, e: int| 0 <= f < families.len() && 0 <= e < families[f]@.len() ==> {
        &&& #[trigger] families[f]@[e] < n
        &&& groupable(observations, assigned, families[f]@[e] as int)
        &&& observations[families[f]@[e] as int].name_key@ == observations[families[f]@[0] as int].name_key@
    }
    &&& forall|f: int, a: int, b: int| 0 <= f < families.len() && 0 <= a < b < families[f]@.len() ==> #[trigger] families[f]@[a] < #[trigger] families[f]@[b]
    &&& forall|f: int, g: int| 0 <= f < g < families.len()
        ==> observations[(#[trigger] families[f])@[0] as int].name_key@ != observations[(#[trigger] families[g])@[0] as int].name_key@
            && families[f]@[0] < families[g]@[0]
    &&& forall|k: int| 0 <= k < n && #[trigger] groupable(observations, assigned, k)
        ==> exists|f: int, e: int| 0 <= f < families.len() && 0 <= e < families[f]@.len() && #[trigger] families[f]@[e] == k
}

/// Groups the unassigned observations with a specific name by name family, in order of
/// first appearance. Families never compete for a track, since a family only considers
/// tracks of its own key, so the order in which they are matched does not matter.
fn group_families(observations: &Vec<Observation>, assigned: &Vec<Option<usize>>) -> (families: Vec<Vec<usize>>)
    requires
        assigned@.len() == observations@.len(),
    ensures
        forall|f: int| 0 <= f < families@.len() ==> (#[trigger] families@[f])@.len() > 0
            && forall|e: int| 0 <= e < families@[f]@.len() ==> #[trigger] families@[f]@[e] < observations@.len(),
        grouped(families@, observations@, assigned@, observations@.len() as int),
{
    let mut families: Vec<Vec<usize>> = Vec::new();
    let mut k: usize = 0;
    while k < observations.len()
        invariant
            k <= observations@.len(),
            assigned@.len() == observations@.len(),
            grouped(families@, observations@, assigned@, k as int),
        decreases observations@.len() - k,
    {
        if assigned[k].is_none() && !observations[k].generic_name {
            let mut found: Option<usize> = None;
            let mut f: usize = 0;
            while f < families.len()
                invariant
                    f <= families@.len(),
                    k < observations@.len(),
                    assigned@.len() == observations@.len(),
                    grouped(families@, observations@, assigned@, k as int),
                    match found {
                        Some(g) => g < f && observations@[families@[g as int]@[0] as int].name_key@ == observations@[k as int].name_key@,
                        None => forall|g: int| 0 <= g < f ==> observations@[(#[trigger] families@[g])@[0] as int].name_key@ != observations@[k as int].name_key@,
                    },
                decreases families@.len() - f,
            {
                if found.is_none() && observations[families[f][0]].name_key == observations[k].name_key {
                    found = Some(f);
                }
                f = f + 1;
            }
            let ghost before = families@;
            match found {
                Some(f) => {
                    let mut family = families.remove(f);
                    let ghost old_family = family@;
                    family.push(k);
                    families.insert(f, family);
                    proof {
                        assert(families@[f as int]@ == old_family.push(k));
                        assert(old_family == before[f as int]@);
                        assert forall|g: int| 0 <= g < families@.len() && g != f implies #[trigger] families@[g] == before[g] by {}
                        assert(groupable(observations@, assigned@, k as int));
                        assert forall|g: int, e: int| 0 <= g < families@.len() && 0 <= e < families@[g]@.len() implies {
                            &&& #[trigger] families@[g]@[e] < k + 1
                            &&& groupable(observations@, assigned@, families@[g]@[e] as int)
                            &&& observations@[families@[g]@[e] as int].name_key@ == observations@[families@[g]@[0] as int].name_key@
                        } by {
                            if g != f {
                                assert(families@[g] == before[g]);
                            } else if e < old_family.len() {
                                assert(families@[g]@[e] == before[g]@[e]);
                                assert(families@[g]@[0] == before[g]@[0]);
                            } else {
                                assert(families@[g]@[0] == before[g]@[0]);
                            }
                        }
                        assert forall|g: int, a: int, b: int| 0 <= g < families@.len() && 0 <= a < b < families@[g]@.len() implies #[trigger] families@[g]@[a] < #[trigger] families@[g]@[b] by {
                            if g != f {
                                assert(families@[g] == before[g]);
                            } else if b < old_family.len() {
                                assert(families@[g]@[a] == before[g]@[a]);
                                assert(families@[g]@[b] == before[g]@[b]);
                            } else {
                                assert(families@[g]@[a] == before[g]@[a]);
                                assert(before[g]@[a] < k);
                            }
                        }
                        assert forall|a: int, b: int| 0 <= a < b < families@.len() implies observations@[(#[trigger] families@[a])@[0] as int].name_key@
                            != observations@[(#[trigger] families@[b])@[0] as int].name_key@ && families@[a]@[0] < families@[b]@[0] by {
                            assert(families@[a]@[0] == before[a]@[0]);
                            assert(families@[b]@[0] == before[b]@[0]);
                        }
                        assert forall|q: int| 0 <= q < k + 1 && #[trigger] groupable(observations@, assigned@, q)
                            implies exists|g: int, e: int| 0 <= g < families@.len() && 0 <= e < families@[g]@.len() && #[trigger] families@[g]@[e] == q by {
                            if q == k {
                                assert(families@[f as int]@[old_family.len() as int] == q);
                            } else {
                                let (g, e) = choose|g: int, e: int| 0 <= g < before.len() && 0 <= e < before[g]@.len() && #[trigger] before[g]@[e] == q;
                                assert(families@[g]@[e] == before[g]@[e]);
                            }
                        }
                    }
                },
                None => {
                    let mut family: Vec<usize> = Vec::new();
                    family.push(k);
                    families.push(family);
                    proof {
                        let last = before.len() as int;
                        assert(families@[last]@ == seq![k]);
                        assert forall|g: int| 0 <= g < before.len() implies #[trigger] families@[g] == before[g] by {}
                        assert(groupable(observations@, assigned@, k as int));
                        assert forall|g: int, e: int| 0 <= g < families@.len() && 0 <= e < families@[g]@.len() implies {
                            &&& #[trigger] families@[g]@[e] < k + 1
                            &&& groupable(observations@, assigned@, families@[g]@[e] as int)
                            &&& observations@[families@[g]@[e] as int].name_key@ == observations@[families@[g]@[0] as int].name_key@
                        } by {
                            if g < last {
                                assert(families@[g] == before[g]);
                            }
                        }
                        assert forall|g: int, a: int, b: int| 0 <= g < families@.len() && 0 <= a < b < families@[g]@.len() implies #[trigger] families@[g]@[a] < #[trigger] families@[g]@[b] by {
                            if g < last {
                                assert(families@[g] == before[g]);
                            }
                        }
                        assert forall|a: int, b: int| 0 <= a < b < families@.len() implies observations@[(#[trigger] families@[a])@[0] as int].name_key@
                            != observations@[(#[trigger] families@[b])@[0] as int].name_key@ && families@[a]@[0] < families@[b]@[0] by {
                            assert(families@[a] == before[a]);
                            if b < last {
                                assert(families@[b] == before[b]);
                            } else {
                                assert(before[a]@[0] < k);
                            }
                        }
                        assert forall|q: int| 0 <= q < k + 1 && #[trigger] groupable(observations@, assigned@, q)
                            implies exists|g: int, e: int| 0 <= g < families@.len() && 0 <= e < families@[g]@.len() && #[trigger] families@[g]@[e] == q by {
                            if q == k {
                                assert(families@[last]@[0] == q);
                            } else {
                                let (g, e) = choose|g: int, e: int| 0 <= g < before.len() && 0 <= e < before[g]@.len() && #[trigger] before[g]@[e] == q;
                                assert(families@[g]@[e] == before[g]@[e]);
                            }
                        }
                    }
                },
            }
        }
        k = k + 1;
    }
    families
}

/// Whether a track can take a member of the family `key` in the family pass: it has a
/// specific name of the family and no cel in the frame.
pub open spec fn family_fit(key: Seq<char>, track: TrackBuilder, frame: int) -> bool {
    &&& !track.generic_name
    &&& track.name_key@ == key
    &&& track.cels@[frame] is None
}

/// Whether a copy-family rule lets the observation consider the track.
pub open spec fn copy_allowed(observation: Observation, track: TrackBuilder) -> bool {
    observation.copy_suffixes@.len() == 0 || observation.generic_name || track.generic_name
        || observation.name_key@ == track.name_key@
}

/// The family-pass candidates of observation `k` among the first `n` tracks, by ascending
/// track: the free tracks of the family that the copy rule allows and that score 40 or more.
pub open spec fn family_list(
    observations: Seq<Observation>,
    k: int,
    tracks: Seq<TrackBuilder>,
    key: Seq<char>,
    used: Seq<bool>,
    frame: int,
    selectors: Seq<FrameContainerInfo>,
    n: int,
) -> Seq<(usize, u16)>
    decreases n,
{
    if n <= 0 {
        Seq::empty()
    } else {
        let rest = family_list(observations, k, tracks, key, used, frame, selectors, n - 1);
        let t = n - 1;
        if !used[t] && family_fit(key, tracks[t], frame) && copy_allowed(observations[k], tracks[t])
            && candidate_score_of(observations[k], tracks[t], observations, selectors) >= 40 {
            rest.push((t as usize, candidate_score_of(observations[k], tracks[t], observations, selectors) as u16))
        } else {
            rest
        }
    }
}

/// The score of the first of the first `n` candidates for track `t`.
pub open spec fn first_score(list: Seq<(usize, u16)>, t: usize, n: int) -> Option<u16>
    decreases n,
{
    if n <= 0 {
        None
    } else {
        match first_score(list, t, n - 1) {
            Some(v) => Some(v),
            None => if list[n - 1].0 == t { Some(list[n - 1].1) } else { None },
        }
    }
}

/// The highest score of the first `n` candidates for other tracks than `t`, or zero.
pub open spec fn max_other(list: Seq<(usize, u16)>, t: usize, n: int) -> u16
    decreases n,
{
    if n <= 0 {
        0
    } else {
        let m = max_other(list, t, n - 1);
        if list[n - 1].0 != t && list[n - 1].1 > m { list[n - 1].1 } else { m }
    }
}

/// How many of the first `n` candidates name an existing track with the normalized name.
pub open spec fn exact_count(list: Seq<(usize, u16)>, tracks: Seq<TrackBuilder>, name: Seq<char>, n: int) -> nat
    decreases n,
{
    if n <= 0 {
        0
    } else {
        exact_count(list, tracks, name, n - 1) + if list[n - 1].0 < tracks.len() && tracks[list[n - 1].0 as int].normalized_name@ == name { 1nat } else { 0nat }
    }
}

/// The score of track `t` in a candidate list, zero when it is not listed.
pub open spec fn pair_score(list: Seq<(usize, u16)>, t: usize) -> u16 {
    match first_score(list, t, list.len() as int) {
        Some(v) => v,
        None => 0,
    }
}

/// How far the score of track `t` lies above the best other candidate, or zero.
pub open spec fn pair_margin(list: Seq<(usize, u16)>, t: usize) -> u16 {
    let s = pair_score(list, t);
    let m = max_other(list, t, list.len() as int);
    if s >= m { (s - m) as u16 } else { 0 }
}

/// Whether the family pass trusts the matched track `t`: it is the only candidate with the
/// observation's exact normalized name, or it scores 75 or more with a margin of 15.
pub open spec fn family_confident(list: Seq<(usize, u16)>, t: usize, tracks: Seq<TrackBuilder>, name: Seq<char>) -> bool {
    exact_count(list, tracks, name, list.len() as int) == 1 || (pair_score(list, t) >= 75 && pair_margin(list, t) >= 15)
}

/// The assignment the family matcher picks for the members.
pub open spec fn family_pairs(members: Seq<usize>, cmap: Seq<Vec<(usize, u16)>>) -> Seq<(usize, usize)> {
    let best = family_search(members, views(cmap)).1;
    if best.len() > 0 { best[0] } else { Seq::empty() }
}

/// The members on which the matcher's optimal assignments disagree.
pub open spec fn family_ties(members: Seq<usize>, cmap: Seq<Vec<(usize, u16)>>) -> Seq<usize> {
    tied_list(family_search(members, views(cmap)).1, members)
}

/// Whether pair `q` of the family matcher's assignment is trusted and so claimed.
pub open spec fn family_pair_claimed(members: Seq<usize>, observations: Seq<Observation>, tracks: Seq<TrackBuilder>, cmap: Seq<Vec<(usize, u16)>>, q: int) -> bool {
    let pair = family_pairs(members, cmap)[q];
    !family_ties(members, cmap).contains(pair.0)
        && family_confident(cmap[pair.0 as int]@, pair.1, tracks, observations[pair.0 as int].normalized_name@)
}

/// Whether the family pass claimed track `t` for one of the first `p` pairs.
pub open spec fn family_claimed_before(members: Seq<usize>, observations: Seq<Observation>, tracks: Seq<TrackBuilder>, cmap: Seq<Vec<(usize, u16)>>, p: int, t: int) -> bool {
    exists|q: int| 0 <= q < p && #[trigger] family_pair_claimed(members, observations, tracks, cmap, q) && family_pairs(members, cmap)[q].1 == t
}

/// Whether the family pass claimed track `t`.
pub open spec fn family_claimed(members: Seq<usize>, observations: Seq<Observation>, tracks: Seq<TrackBuilder>, cmap: Seq<Vec<(usize, u16)>>, t: int) -> bool {
    family_claimed_before(members, observations, tracks, cmap, family_pairs(members, cmap).len() as int, t)
}

/// Whether `x` is one of the first `n` members.
pub open spec fn among(members: Seq<usize>, n: int, x: int) -> bool {
    exists|e: int| 0 <= e < n && #[trigger] members[e] == x
}

fn family_phase_one(
    members: &Vec<usize>,
    observations: &Vec<Observation>,
    tracks: &Vec<TrackBuilder>,
    selectors: &Vec<FrameContainerInfo>,
    frame: usize,
    frame_count: usize,
    assigned: &mut Vec<Option<usize>>,
    metadata: &mut Vec<Option<AssignmentMetadata>>,
    used: &mut Vec<bool>,
    candidate_map: &mut Vec<Vec<(usize, u16)>>,
    family_handled: &mut Vec<bool>,
    matching_ties: &mut Vec<bool>,
    Ghost(fresh): Ghost<Seq<bool>>,
)
    requires
        frame < frame_count,
        tracks_wf(tracks@, frame_count),
        members@.len() > 0,
        forall|e: int| 0 <= e < members@.len() ==> #[trigger] members@[e] < observations@.len(),
        claims_wf(old(assigned)@, old(used)@, fresh, tracks@, frame as int),
        old(assigned)@.len() == observations@.len(),
        old(metadata)@.len() == observations@.len(),
        old(candidate_map)@.len() == observations@.len(),
        old(family_handled)@.len() == observations@.len(),
        old(matching_ties)@.len() == observations@.len(),
    ensures
        claims_wf(final(assigned)@, final(used)@, fresh, tracks@, frame as int),
        final(metadata)@.len() == observations@.len(),
        final(candidate_map)@.len() == observations@.len(),
        final(family_handled)@.len() == observations@.len(),
        final(matching_ties)@.len() == observations@.len(),
        forall|e: int| 0 <= e < members@.len() ==> (#[trigger] final(candidate_map)@[members@[e] as int])@ == family_list(observations@, members@[e] as int, tracks@,
            observations@[members@[0] as int].name_key@, old(used)@, frame as int, selectors@, tracks@.len() as int).sort_by(candidate_order()),
        forall|e: int| 0 <= e < members@.len() ==> #[trigger] final(family_handled)@[members@[e] as int] == (old(family_handled)@[members@[e] as int]
            || observations@[members@[e] as int].copy_suffixes@.len() > 0
            || exists|t: int| 0 <= t < tracks@.len() && !old(used)@[t] && #[trigger] family_fit(observations@[members@[0] as int].name_key@, tracks@[t], frame as int)),
        forall|x: int| 0 <= x < observations@.len() && !among(members@, members@.len() as int, x) ==> #[trigger] final(candidate_map)@[x] == old(candidate_map)@[x]
            && final(family_handled)@[x] == old(family_handled)@[x],
        forall|x: int| 0 <= x < observations@.len() && !among(members@, members@.len() as int, x) ==> #[trigger] final(assigned)@[x] == old(assigned)@[x]
            && final(metadata)@[x] == old(metadata)@[x],
        forall|x: int| 0 <= x < observations@.len() ==> #[trigger] final(matching_ties)@[x] == (old(matching_ties)@[x]
            || family_ties(members@, final(candidate_map)@).contains(x as usize)),
        forall|x: int| 0 <= x < observations@.len() && (final(assigned)@[x] != old(assigned)@[x] || final(metadata)@[x] != old(metadata)@[x])
            ==> exists|q: int| 0 <= q < family_pairs(members@, final(candidate_map)@).len() && {
                let pair = #[trigger] family_pairs(members@, final(candidate_map)@)[q];
                &&& pair.0 == x
                &&& !family_ties(members@, final(candidate_map)@).contains(pair.0)
                &&& final(assigned)@[x] == Some(pair.1)
                &&& final(metadata)@[x] == Some(AssignmentMetadata {
                    score: pair_score(final(candidate_map)@[x]@, pair.1),
                    margin: pair_margin(final(candidate_map)@[x]@, pair.1),
                    phase: AssociationPhase::Family,
                    matching_tie: false,
                })
            },
        forall|q: int| 0 <= q < family_pairs(members@, final(candidate_map)@).len() ==> {
            let pair = #[trigger] family_pairs(members@, final(candidate_map)@)[q];
            !family_ties(members@, final(candidate_map)@).contains(pair.0)
                && family_confident(final(candidate_map)@[pair.0 as int]@, pair.1, tracks@, observations@[pair.0 as int].normalized_name@)
                ==> final(assigned)@[pair.0 as int] is Some
        },
        forall|t: int| 0 <= t < tracks@.len() ==> #[trigger] final(used)@[t] == (old(used)@[t]
            || family_claimed(members@, observations@, tracks@, final(candidate_map)@, t)),
{
    let ghost used0 = used@;
    let ghost assigned0 = assigned@;
    let ghost metadata0 = metadata@;
    let ghost cmap0 = candidate_map@;
    let ghost handled0 = family_handled@;
    let ghost ties0 = matching_ties@;
    let key = &observations[members[0]].name_key;
    let ghost key_view = key@;
    let mut any_available = false;
    let mut t: usize = 0;
    while t < tracks.len()
        invariant
            frame < frame_count,
            tracks_wf(tracks@, frame_count),
            used@ == used0,
            used@.len() == tracks@.len(),
            t <= tracks@.len(),
            key@ == key_view,
            any_available == exists|u: int| 0 <= u < t && !used0[u] && #[trigger] family_fit(key_view, tracks@[u], frame as int),
        decreases tracks@.len() - t,
    {
        let track = &tracks[t];
        if !used[t] && !track.generic_name && track.name_key == *key && track.cels[frame].is_none() {
            assert(family_fit(key_view, tracks@[t as int], frame as int));
            any_available = true;
        }
        t = t + 1;
    }
    let mut i: usize = 0;
    while i < members.len()
        invariant
            frame < frame_count,
            tracks_wf(tracks@, frame_count),
            used@ == used0,
            used@.len() == tracks@.len(),
            key@ == key_view,
            key_view == observations@[members@[0] as int].name_key@,
            any_available == exists|u: int| 0 <= u < tracks@.len() && !used0[u] && #[trigger] family_fit(key_view, tracks@[u], frame as int),
            i <= members@.len(),
            forall|e: int| 0 <= e < members@.len() ==> #[trigger] members@[e] < observations@.len(),
            candidate_map@.len() == observations@.len(),
            family_handled@.len() == observations@.len(),
            forall|e: int| 0 <= e < i ==> unused_candidates(candidate_map@[#[trigger] members@[e] as int]@, used@),
            forall|e: int| 0 <= e < i ==> (#[trigger] candidate_map@[members@[e] as int])@ == family_list(observations@, members@[e] as int, tracks@,
                key_view, used0, frame as int, selectors@, tracks@.len() as int).sort_by(candidate_order()),
            forall|e: int| 0 <= e < i ==> #[trigger] family_handled@[members@[e] as int] == (handled0[members@[e] as int]
                || observations@[members@[e] as int].copy_suffixes@.len() > 0 || any_available),
            forall|x: int| 0 <= x < observations@.len() && !among(members@, i as int, x) ==> #[trigger] candidate_map@[x] == cmap0[x]
                && family_handled@[x] == handled0[x],
        decreases members@.len() - i,
    {
        let k = members[i];
        let observation = &observations[k];
        let mut candidates: Vec<(usize, u16)> = Vec::new();
        let mut u: usize = 0;
        while u < tracks.len()
            invariant
                frame < frame_count,
                tracks_wf(tracks@, frame_count),
                used@ == used0,
                used@.len() == tracks@.len(),
                key@ == key_view,
                k < observations@.len(),
                *observation == observations@[k as int],
                u <= tracks@.len(),
                unused_candidates(candidates@, used@),
                candidates@ == family_list(observations@, k as int, tracks@, key_view, used0, frame as int, selectors@, u as int),
            decreases tracks@.len() - u,
        {
            let track = &tracks[u];
            if !used[u] && !track.generic_name && track.name_key == *key && track.cels[frame].is_none() && copy_family_candidate_allowed(observation, track) {
                let score = candidate_score(observation, track, observations, selectors);
                if score >= 40 {
                    candidates.push((u, score));
                }
            }
            u = u + 1;
        }
        let ghost unsorted = candidates@;
        let sorted = sort_candidates(candidates);
        proof {
            lemma_sorted_unused(sorted@, unsorted, used@);
        }
        let ghost cm_before = candidate_map@;
        let ghost handled_before = family_handled@;
        candidate_map.set(k, sorted);
        if any_available || observation.copy_suffixes.len() > 0 {
            family_handled.set(k, true);
        }
        proof {
            assert forall|e: int| 0 <= e < i + 1 implies unused_candidates(candidate_map@[#[trigger] members@[e] as int]@, used@) by {
                if members@[e] != k {
                    assert(candidate_map@[members@[e] as int] == cm_before[members@[e] as int]);
                }
            }
            assert forall|e: int| 0 <= e < i + 1 implies (#[trigger] candidate_map@[members@[e] as int])@ == family_list(observations@, members@[e] as int, tracks@,
                key_view, used0, frame as int, selectors@, tracks@.len() as int).sort_by(candidate_order()) by {
                if members@[e] != k {
                    assert(candidate_map@[members@[e] as int] == cm_before[members@[e] as int]);
                }
            }
            assert forall|e: int| 0 <= e < i + 1 implies #[trigger] family_handled@[members@[e] as int] == (handled0[members@[e] as int]
                || observations@[members@[e] as int].copy_suffixes@.len() > 0 || any_available) by {
                if members@[e] != k {
                    assert(family_handled@[members@[e] as int] == handled_before[members@[e] as int]);
                } else if e < i {
                    assert(handled_before[k as int] == (handled0[k as int] || observations@[k as int].copy_suffixes@.len() > 0 || any_available));
                } else if !among(members@, i as int, k as int) {
                    assert(cm_before[k as int] == cmap0[k as int]);
                    assert(handled_before[k as int] == handled0[k as int]);
                } else {
                    let w = choose|w: int| 0 <= w < i && #[trigger] members@[w] == k;
                    assert(handled_before[members@[w] as int] == (handled0[members@[w] as int] || observations@[members@[w] as int].copy_suffixes@.len() > 0 || any_available));
                }
            }
            assert forall|x: int| 0 <= x < observations@.len() && !among(members@, i + 1, x) implies #[trigger] candidate_map@[x] == cmap0[x]
                && family_handled@[x] == handled0[x] by {
                assert(members@[i as int] == k);
                if x == k {
                    assert(among(members@, i + 1, x));
                }
                if among(members@, i as int, x) {
                    let w = choose|w: int| 0 <= w < i && #[trigger] members@[w] == x;
                    assert(among(members@, i + 1, x));
                }
                assert(candidate_map@[x] == cm_before[x]);
                assert(family_handled@[x] == handled_before[x]);
            }
        }
        i = i + 1;
    }
    let ghost cmap_final = candidate_map@;
    let matching = find_best_family_matching(members, candidate_map);
    proof {
        lemma_family_matching_one_to_one(members@, views(candidate_map@));
        let best = family_search(members@, views(candidate_map@)).1;
        if best.len() > 0 {
            assert(one_to_one(best[0], members@, views(candidate_map@)));
        } else {
            assert(one_to_one(matching.assignments@, members@, views(candidate_map@)));
        }
        lemma_claimable(matching.assignments@, members@, candidate_map@, used@);
    }
    let ghost ties = matching.tied_observations@;
    assert(ties == family_ties(members@, cmap_final));
    assert(matching.assignments@ == family_pairs(members@, cmap_final));
    let mut m: usize = 0;
    while m < matching.tied_observations.len()
        invariant
            matching_ties@.len() == observations@.len(),
            ties0.len() == observations@.len(),
            ties == matching.tied_observations@,
            m <= ties.len(),
            forall|x: int| 0 <= x < observations@.len() ==> #[trigger] matching_ties@[x] == (ties0[x] || ties.take(m as int).contains(x as usize)),
        decreases matching.tied_observations@.len() - m,
    {
        let tied = matching.tied_observations[m];
        let ghost before = matching_ties@;
        if tied < matching_ties.len() {
            matching_ties.set(tied, true);
        }
        proof {
            assert forall|x: int| 0 <= x < observations@.len() implies #[trigger] matching_ties@[x] == (ties0[x] || ties.take(m + 1).contains(x as usize)) by {
                assert(ties.take(m + 1) == ties.take(m as int).push(tied));
                if x as usize == tied {
                    assert(ties.take(m + 1)[m as int] == tied);
                } else {
                    assert(matching_ties@[x] == before[x]);
                    if ties.take(m + 1).contains(x as usize) {
                        let w = choose|w: int| 0 <= w < m + 1 && #[trigger] ties.take(m + 1)[w] == x as usize;
                        assert(w < m);
                        assert(ties.take(m as int)[w] == x as usize);
                    }
                    if ties.take(m as int).contains(x as usize) {
                        let w = choose|w: int| 0 <= w < m && #[trigger] ties.take(m as int)[w] == x as usize;
                        assert(ties.take(m + 1)[w] == x as usize);
                    }
                }
            }
        }
        m = m + 1;
    }
    assert(ties.take(ties.len() as int) == ties);
    let ghost pairs = matching.assignments@;
    let ghost cands_view = views(candidate_map@);
    assert(pairs.skip(0) =~= pairs);
    let mut p: usize = 0;
    while p < matching.assignments.len()
        invariant
            pairs == matching.assignments@,
            ties == matching.tied_observations@,
            one_to_one(pairs, members@, cands_view),
            p <= pairs.len(),
            claims_wf(assigned@, used@, fresh, tracks@, frame as int),
            assigned@.len() == observations@.len(),
            metadata@.len() == observations@.len(),
            candidate_map@.len() == observations@.len(),
            candidate_map@ == cmap_final,
            assigned0.len() == observations@.len(),
            metadata0.len() == observations@.len(),
            forall|e: int| 0 <= e < members@.len() ==> #[trigger] members@[e] < observations@.len(),
            claimable(pairs.skip(p as int), used@, observations@.len() as int),
            forall|x: int| 0 <= x < observations@.len() && (assigned@[x] != assigned0[x] || metadata@[x] != metadata0[x])
                ==> exists|q: int| 0 <= q < p && {
                    let pair = #[trigger] pairs[q];
                    &&& pair.0 == x
                    &&& !ties.contains(pair.0)
                    &&& assigned@[x] == Some(pair.1)
                    &&& metadata@[x] == Some(AssignmentMetadata {
                        score: pair_score(cmap_final[x]@, pair.1),
                        margin: pair_margin(cmap_final[x]@, pair.1),
                        phase: AssociationPhase::Family,
                        matching_tie: false,
                    })
                },
            forall|q: int| 0 <= q < p ==> {
                let pair = #[trigger] pairs[q];
                !ties.contains(pair.0) && family_confident(cmap_final[pair.0 as int]@, pair.1, tracks@, observations@[pair.0 as int].normalized_name@)
                    ==> assigned@[pair.0 as int] is Some
            },
            used0.len() == tracks@.len(),
            pairs == family_pairs(members@, cmap_final),
            ties == family_ties(members@, cmap_final),
            forall|t: int| 0 <= t < tracks@.len() ==> #[trigger] used@[t] == (used0[t] || family_claimed_before(members@, observations@, tracks@, cmap_final, p as int, t)),
        decreases pairs.len() - p,
    {
        let (k, track_id) = matching.assignments[p];
        assert(pairs.skip(p as int)[0] == pairs[p as int]);
        let ghost assigned_before = assigned@;
        let ghost metadata_before = metadata@;
        let ghost used_at = used@;
        if !contains_index(&matching.tied_observations, k) {
            let candidates = &candidate_map[k];
            let ghost list = candidates@;
            let ghost name = observations@[k as int].normalized_name@;
            let mut score: u16 = 0;
            let mut second: u16 = 0;
            let mut exact: usize = 0;
            let mut found = false;
            let mut c: usize = 0;
            while c < candidates.len()
                invariant
                    c <= candidates@.len(),
                    list == candidates@,
                    exact <= c,
                    k < observations@.len(),
                    name == observations@[k as int].normalized_name@,
                    found == first_score(list, track_id, c as int) is Some,
                    score == (match first_score(list, track_id, c as int) { Some(v) => v, None => 0u16 }),
                    second == max_other(list, track_id, c as int),
                    exact == exact_count(list, tracks@, name, c as int),
                decreases candidates@.len() - c,
            {
                let (candidate, candidate_score_value) = candidates[c];
                if candidate == track_id {
                    if !found {
                        score = candidate_score_value;
                        found = true;
                    }
                } else if candidate_score_value > second {
                    second = candidate_score_value;
                }
                if candidate < tracks.len() && tracks[candidate].normalized_name == observations[k].normalized_name {
                    exact = exact + 1;
                }
                c = c + 1;
            }
            let margin: u16 = if score >= second { score - second } else { 0 };
            assert(score == pair_score(list, track_id));
            assert(margin == pair_margin(list, track_id));
            if exact == 1 || (score >= 75 && margin >= 15) {
                let ghost used_before = used@;
                claim(assigned, used, k, track_id, Ghost(fresh), Ghost(tracks@), Ghost(frame as int));
                metadata.set(k, Some(AssignmentMetadata { score, margin, phase: AssociationPhase::Family, matching_tie: false }));
                proof {
                    lemma_claim_rest(pairs, members@, cands_view, used_before, observations@.len() as int, p as int);
                    assert(!ties.contains(k));
                    assert forall|x: int| 0 <= x < observations@.len() && (assigned@[x] != assigned0[x] || metadata@[x] != metadata0[x])
                        implies exists|q: int| 0 <= q < p + 1 && {
                            let pair = #[trigger] pairs[q];
                            &&& pair.0 == x
                            &&& !ties.contains(pair.0)
                            &&& assigned@[x] == Some(pair.1)
                            &&& metadata@[x] == Some(AssignmentMetadata {
                                score: pair_score(cmap_final[x]@, pair.1),
                                margin: pair_margin(cmap_final[x]@, pair.1),
                                phase: AssociationPhase::Family,
                                matching_tie: false,
                            })
                        } by {
                        if x == k {
                            assert(pairs[p as int] == (k, track_id));
                        } else {
                            assert(assigned@[x] == assigned_before[x]);
                            assert(metadata@[x] == metadata_before[x]);
                        }
                    }
                    assert forall|q: int| 0 <= q < p + 1 implies {
                        let pair = #[trigger] pairs[q];
                        !ties.contains(pair.0) && family_confident(cmap_final[pair.0 as int]@, pair.1, tracks@, observations@[pair.0 as int].normalized_name@)
                            ==> assigned@[pair.0 as int] is Some
                    } by {
                        if pairs[q].0 != k && q < p {
                            assert(members@.contains(pairs[q].0));
                            let e = choose|e: int| 0 <= e < members@.len() && members@[e] == pairs[q].0;
                            assert(members@[e] < observations@.len());
                            assert(assigned@[pairs[q].0 as int] == assigned_before[pairs[q].0 as int]);
                        }
                    }
                }
            } else {
                proof {
                    lemma_skip_claimable(pairs, used@, observations@.len() as int, p as int);
                    assert(!family_confident(cmap_final[k as int]@, track_id, tracks@, observations@[k as int].normalized_name@));
                }
            }
        } else {
            proof {
                lemma_skip_claimable(pairs, used@, observations@.len() as int, p as int);
            }
        }
        proof {
            let claimed_now = family_pair_claimed(members@, observations@, tracks@, cmap_final, p as int);
            assert(claimed_now ==> used@ == used_at.update(track_id as int, true));
            assert(!claimed_now ==> used@ == used_at);
            assert forall|t: int| 0 <= t < tracks@.len() implies #[trigger] used@[t] == (used0[t] || family_claimed_before(members@, observations@, tracks@, cmap_final, p + 1, t)) by {
                if family_claimed_before(members@, observations@, tracks@, cmap_final, p + 1, t) {
                    let q = choose|q: int| 0 <= q < p + 1 && #[trigger] family_pair_claimed(members@, observations@, tracks@, cmap_final, q) && family_pairs(members@, cmap_final)[q].1 == t;
                    if q < p {
                        assert(family_claimed_before(members@, observations@, tracks@, cmap_final, p as int, t));
                    }
                }
                if family_claimed_before(members@, observations@, tracks@, cmap_final, p as int, t) {
                    let q = choose|q: int| 0 <= q < p && #[trigger] family_pair_claimed(members@, observations@, tracks@, cmap_final, q) && family_pairs(members@, cmap_final)[q].1 == t;
                    assert(family_claimed_before(members@, observations@, tracks@, cmap_final, p + 1, t));
                }
                if claimed_now && t == track_id {
                    assert(family_claimed_before(members@, observations@, tracks@, cmap_final, p + 1, t));
                }
            }
        }
        p = p + 1;
    }
    proof {
        assert forall|x: int| 0 <= x < observations@.len() && !among(members@, members@.len() as int, x)
            implies #[trigger] assigned@[x] == assigned0[x] && metadata@[x] == metadata0[x] by {
            if assigned@[x] != assigned0[x] || metadata@[x] != metadata0[x] {
                let q = choose|q: int| 0 <= q < p && {
                    let pair = #[trigger] pairs[q];
                    &&& pair.0 == x
                    &&& !ties.contains(pair.0)
                    &&& assigned@[x] == Some(pair.1)
                    &&& metadata@[x] == Some(AssignmentMetadata {
                        score: pair_score(cmap_final[x]@, pair.1),
                        margin: pair_margin(cmap_final[x]@, pair.1),
                        phase: AssociationPhase::Family,
                        matching_tie: false,
                    })
                };
                assert(members@.contains(pairs[q].0));
                let e = choose|e: int| 0 <= e < members@.len() && members@[e] == pairs[q].0;
                assert(among(members@, members@.len() as int, x));
            }
        }
    }
}

/// The observations below `n` that the residual pass considers, in order: unassigned, not
/// handled by the family pass, and with a generic name or no copy suffix.
pub open spec fn considered_by_residual(observations: Seq<Observation>, assigned: Seq<Option<usize>>, handled: Seq<bool>, n: int) -> Seq<usize>
    decreases n,
{
    if n <= 0 {
        Seq::empty()
    } else {
        let rest = considered_by_residual(observations, assigned, handled, n - 1);
        let k = n - 1;
        if assigned[k] is None && !handled[k] && (observations[k].generic_name || observations[k].copy_suffixes@.len() == 0) {
            rest.push(k as usize)
        } else {
            rest
        }
    }
}

/// The tracks below `n` that the residual pass offers, in order: free and without a cel in
/// the frame.
pub open spec fn offered_by_residual(tracks: Seq<TrackBuilder>, used: Seq<bool>, frame: int, n: int) -> Seq<usize>
    decreases n,
{
    if n <= 0 {
        Seq::empty()
    } else {
        let rest = offered_by_residual(tracks, used, frame, n - 1);
        if !used[n - 1] && tracks[n - 1].cels@[frame] is None { rest.push((n - 1) as usize) } else { rest }
    }
}

/// The residual candidates of observation `k` among the first `n` offered tracks, in their
/// order: those that the copy rule allows and that score 40 or more.
pub open spec fn residual_list(observations: Seq<Observation>, k: int, tracks: Seq<TrackBuilder>, offered: Seq<usize>, selectors: Seq<FrameContainerInfo>, n: int) -> Seq<(usize, u16)>
    decreases n,
{
    if n <= 0 {
        Seq::empty()
    } else {
        let rest = residual_list(observations, k, tracks, offered, selectors, n - 1);
        let t = offered[n - 1] as int;
        if copy_allowed(observations[k], tracks[t]) && candidate_score_of(observations[k], tracks[t], observations, selectors) >= 40 {
            rest.push((t as usize, candidate_score_of(observations[k], tracks[t], observations, selectors) as u16))
        } else {
            rest
        }
    }
}

/// Whether the residual pass has exactly one observation and one track.
pub open spec fn residual_unique(considered: Seq<usize>, offered: Seq<usize>) -> bool {
    considered.len() == 1 && offered.len() == 1
}

/// The assignments the residual pass finds: the only pair where it is unique and the
/// observation has a candidate, else up to two one-to-one assignments.
pub open spec fn residual_solutions(considered: Seq<usize>, offered: Seq<usize>, cmap: Seq<Vec<(usize, u16)>>) -> Seq<Seq<(usize, usize)>> {
    if residual_unique(considered, offered) {
        if cmap[considered[0] as int]@.len() > 0 { seq![seq![(considered[0], offered[0])]] } else { Seq::empty() }
    } else {
        fill(Seq::<Seq<(usize, usize)>>::empty(), matchings(considered, views(cmap), 0, Seq::empty(), Seq::empty()), 2)
    }
}

/// The score of the first of the first `n` candidates for another track than `t`.
pub open spec fn first_other(list: Seq<(usize, u16)>, t: usize, n: int) -> Option<u16>
    decreases n,
{
    if n <= 0 {
        None
    } else {
        match first_other(list, t, n - 1) {
            Some(v) => Some(v),
            None => if list[n - 1].0 != t { Some(list[n - 1].1) } else { None },
        }
    }
}

/// Whether the residual pass trusts track `t`: it is listed with a score of 75 or more, 15
/// above the first other candidate.
pub open spec fn residual_safe(list: Seq<(usize, u16)>, t: usize) -> bool {
    let second: u16 = match first_other(list, t, list.len() as int) { Some(v) => v, None => 0 };
    match first_score(list, t, list.len() as int) {
        Some(score) => score >= 75 && score >= second && score - second >= 15,
        None => false,
    }
}

/// What the residual pass records of an assignment to track `t`.
pub open spec fn residual_metadata(list: Seq<(usize, u16)>, t: usize) -> AssignmentMetadata {
    let score: u16 = match first_score(list, t, list.len() as int) { Some(v) => v, None => 100 };
    let other = max_other(list, t, list.len() as int);
    AssignmentMetadata { score, margin: if score >= other { (score - other) as u16 } else { 0 }, phase: AssociationPhase::Residual, matching_tie: false }
}

fn residual_phase(
    observations: &Vec<Observation>,
    tracks: &Vec<TrackBuilder>,
    selectors: &Vec<FrameContainerInfo>,
    frame: usize,
    frame_count: usize,
    assigned: &mut Vec<Option<usize>>,
    metadata: &mut Vec<Option<AssignmentMetadata>>,
    used: &mut Vec<bool>,
    candidate_map: &mut Vec<Vec<(usize, u16)>>,
    family_handled: &Vec<bool>,
    Ghost(fresh): Ghost<Seq<bool>>,
) -> (solution_count: usize)
    requires
        frame < frame_count,
        tracks_wf(tracks@, frame_count),
        claims_wf(old(assigned)@, old(used)@, fresh, tracks@, frame as int),
        old(assigned)@.len() == observations@.len(),
        old(metadata)@.len() == observations@.len(),
        old(candidate_map)@.len() == observations@.len(),
        family_handled@.len() == observations@.len(),
    ensures
        claims_wf(final(assigned)@, final(used)@, fresh, tracks@, frame as int),
        final(metadata)@.len() == observations@.len(),
        final(candidate_map)@.len() == observations@.len(),
        ({
            let considered = considered_by_residual(observations@, old(assigned)@, family_handled@, observations@.len() as int);
            let offered = offered_by_residual(tracks@, old(used)@, frame as int, tracks@.len() as int);
            let cm = final(candidate_map)@;
            let solutions = residual_solutions(considered, offered, cm);
            &&& forall|e: int| 0 <= e < considered.len() ==> (#[trigger] cm[considered[e] as int])@
                == residual_list(observations@, considered[e] as int, tracks@, offered, selectors@, offered.len() as int).sort_by(candidate_order())
            &&& forall|x: int| 0 <= x < observations@.len() && !considered.contains(x as usize) ==> #[trigger] cm[x] == old(candidate_map)@[x]
            &&& solution_count == solutions.len()
            &&& forall|x: int| 0 <= x < observations@.len() && (final(assigned)@[x] != old(assigned)@[x] || final(metadata)@[x] != old(metadata)@[x])
                ==> solutions.len() == 1 && exists|q: int| 0 <= q < solutions[0].len() && {
                    let pair = #[trigger] solutions[0][q];
                    &&& pair.0 == x
                    &&& final(assigned)@[x] == Some(pair.1)
                    &&& final(metadata)@[x] == Some(residual_metadata(cm[x]@, pair.1))
                }
            &&& solutions.len() == 1 ==> forall|q: int| 0 <= q < solutions[0].len() ==> {
                let pair = #[trigger] solutions[0][q];
                residual_unique(considered, offered) || residual_safe(cm[pair.0 as int]@, pair.1) ==> final(assigned)@[pair.0 as int] is Some
            }
        }),
        forall|x: int| 0 <= x < observations@.len() && (#[trigger] old(assigned)@[x]) is Some
            ==> final(assigned)@[x] == old(assigned)@[x] && final(metadata)@[x] == old(metadata)@[x],
{
    let ghost assigned0 = assigned@;
    let ghost metadata0 = metadata@;
    let ghost cmap0 = candidate_map@;
    let ghost used0 = used@;
    let mut residual_observations: Vec<usize> = Vec::new();
    let mut k: usize = 0;
    while k < observations.len()
        invariant
            k <= observations@.len(),
            assigned@ == assigned0,
            assigned@.len() == observations@.len(),
            family_handled@.len() == observations@.len(),
            residual_observations@ == considered_by_residual(observations@, assigned0, family_handled@, k as int),
            forall|e: int| 0 <= e < residual_observations@.len() ==> #[trigger] residual_observations@[e] < k,
            forall|a: int, b: int| 0 <= a < b < residual_observations@.len() ==> #[trigger] residual_observations@[a] < #[trigger] residual_observations@[b],
        decreases observations@.len() - k,
    {
        let observation = &observations[k];
        if assigned[k].is_none() && !family_handled[k] && (observation.generic_name || observation.copy_suffixes.len() == 0) {
            residual_observations.push(k);
        }
        k = k + 1;
    }
    let ghost considered = residual_observations@;
    let mut residual_tracks: Vec<usize> = Vec::new();
    let mut t: usize = 0;
    while t < tracks.len()
        invariant
            frame < frame_count,
            tracks_wf(tracks@, frame_count),
            used@ == used0,
            used@.len() == tracks@.len(),
            t <= tracks@.len(),
            residual_tracks@ == offered_by_residual(tracks@, used0, frame as int, t as int),
            forall|e: int| 0 <= e < residual_tracks@.len() ==> #[trigger] residual_tracks@[e] < used@.len() && !used@[residual_tracks@[e] as int],
        decreases tracks@.len() - t,
    {
        if !used[t] && tracks[t].cels[frame].is_none() {
            residual_tracks.push(t);
        }
        t = t + 1;
    }
    let ghost offered = residual_tracks@;
    let mut i: usize = 0;
    while i < residual_observations.len()
        invariant
            used@ == used0,
            used@.len() == tracks@.len(),
            i <= residual_observations@.len(),
            residual_observations@ == considered,
            residual_tracks@ == offered,
            forall|e: int| 0 <= e < residual_observations@.len() ==> #[trigger] residual_observations@[e] < observations@.len(),
            forall|a: int, b: int| 0 <= a < b < residual_observations@.len() ==> #[trigger] residual_observations@[a] < #[trigger] residual_observations@[b],
            forall|e: int| 0 <= e < residual_tracks@.len() ==> #[trigger] residual_tracks@[e] < used@.len() && !used@[residual_tracks@[e] as int],
            candidate_map@.len() == observations@.len(),
            forall|e: int| 0 <= e < i ==> unused_candidates(candidate_map@[#[trigger] residual_observations@[e] as int]@, used@),
            forall|e: int| 0 <= e < i ==> (#[trigger] candidate_map@[residual_observations@[e] as int])@
                == residual_list(observations@, residual_observations@[e] as int, tracks@, offered, selectors@, offered.len() as int).sort_by(candidate_order()),
            forall|x: int| 0 <= x < observations@.len() && !considered.take(i as int).contains(x as usize) ==> #[trigger] candidate_map@[x] == cmap0[x],
        decreases residual_observations@.len() - i,
    {
        let k = residual_observations[i];
        let observation = &observations[k];
        let mut candidates: Vec<(usize, u16)> = Vec::new();
        let mut r: usize = 0;
        while r < residual_tracks.len()
            invariant
                used@.len() == tracks@.len(),
                r <= residual_tracks@.len(),
                residual_tracks@ == offered,
                k < observations@.len(),
                *observation == observations@[k as int],
                forall|e: int| 0 <= e < residual_tracks@.len() ==> #[trigger] residual_tracks@[e] < used@.len() && !used@[residual_tracks@[e] as int],
                unused_candidates(candidates@, used@),
                candidates@ == residual_list(observations@, k as int, tracks@, offered, selectors@, r as int),
            decreases residual_tracks@.len() - r,
        {
            let track_id = residual_tracks[r];
            let track = &tracks[track_id];
            if copy_family_candidate_allowed(observation, track) {
                let score = candidate_score(observation, track, observations, selectors);
                if score >= 40 {
                    candidates.push((track_id, score));
                }
            }
            r = r + 1;
        }
        let ghost unsorted = candidates@;
        let sorted = sort_candidates(candidates);
        proof {
            lemma_sorted_unused(sorted@, unsorted, used@);
        }
        let ghost cm_before = candidate_map@;
        candidate_map.set(k, sorted);
        proof {
            assert forall|e: int| 0 <= e < i + 1 implies unused_candidates(candidate_map@[#[trigger] residual_observations@[e] as int]@, used@) by {
                if e < i {
                    assert(residual_observations@[e] != k);
                }
            }
            assert forall|e: int| 0 <= e < i + 1 implies (#[trigger] candidate_map@[residual_observations@[e] as int])@
                == residual_list(observations@, residual_observations@[e] as int, tracks@, offered, selectors@, offered.len() as int).sort_by(candidate_order()) by {
                if e < i {
                    assert(residual_observations@[e] != k);
                    assert(candidate_map@[residual_observations@[e] as int] == cm_before[residual_observations@[e] as int]);
                }
            }
            assert forall|x: int| 0 <= x < observations@.len() && !considered.take(i + 1).contains(x as usize) implies #[trigger] candidate_map@[x] == cmap0[x] by {
                assert(considered.take(i + 1)[i as int] == k);
                if considered.take(i as int).contains(x as usize) {
                    let w = choose|w: int| 0 <= w < i && #[trigger] considered.take(i as int)[w] == x as usize;
                    assert(considered.take(i + 1)[w] == x as usize);
                }
                assert(candidate_map@[x] == cm_before[x]);
            }
        }
        i = i + 1;
    }
    proof {
        assert(considered.take(considered.len() as int) == considered);
        assert forall|x: int| 0 <= x < observations@.len() && !considered.contains(x as usize) implies #[trigger] candidate_map@[x] == cmap0[x] by {}
    }
    let ghost cm_final = candidate_map@;
    let unique_residual = residual_observations.len() == 1 && residual_tracks.len() == 1;
    let mut solutions: Vec<Vec<(usize, usize)>> = Vec::new();
    if unique_residual {
        if candidate_map[residual_observations[0]].len() > 0 {
            let mut only: Vec<(usize, usize)> = Vec::new();
            only.push((residual_observations[0], residual_tracks[0]));
            solutions.push(only);
            proof {
                assert(claimable(solutions@[0]@, used@, observations@.len() as int));
            }
        }
    } else {
        solutions = find_unique_matchings(&residual_observations, candidate_map, 2);
        proof {
            let all = matchings(residual_observations@, views(candidate_map@), 0, Seq::empty(), Seq::empty());
            lemma_unique_matchings_one_to_one(residual_observations@, views(candidate_map@));
            if solutions@.len() == 1 {
                assert(views(solutions@)[0] == solutions@[0]@);
                assert(all.len() >= 1);
                assert(views(solutions@)[0] == all[0]);
                assert(one_to_one(solutions@[0]@, residual_observations@, views(candidate_map@)));
                lemma_claimable(solutions@[0]@, residual_observations@, candidate_map@, used@);
            }
        }
    }
    let ghost expected = residual_solutions(considered, offered, cm_final);
    proof {
        assert(views(solutions@).len() == solutions@.len());
        if unique_residual {
            if cm_final[considered[0] as int]@.len() > 0 {
                assert(solutions@[0]@ == seq![(considered[0], offered[0])]);
                assert(views(solutions@) =~= expected);
            } else {
                assert(views(solutions@) =~= expected);
            }
        }
        assert(views(solutions@) == expected);
        assert(solutions@.len() == expected.len());
    }
    if solutions.len() == 1 {
        let chosen = &solutions[0];
        let ghost pairs = chosen@;
        assert(pairs == expected[0]);
        assert(pairs.skip(0) =~= pairs);
        assert(unique_residual ==> pairs.len() == 1);
        let mut p: usize = 0;
        while p < chosen.len()
            invariant
                pairs == chosen@,
                pairs == expected[0],
                expected.len() == 1,
                unique_residual == residual_unique(considered, offered),
                unique_residual || one_to_one(pairs, residual_observations@, views(candidate_map@)),
                unique_residual ==> pairs.len() == 1,
                unique_residual ==> pairs[0].0 == considered[0],
                residual_observations@ == considered,
                forall|e: int| 0 <= e < residual_observations@.len() ==> #[trigger] residual_observations@[e] < observations@.len(),
                unique_residual ==> considered.len() > 0,
                p <= pairs.len(),
                claims_wf(assigned@, used@, fresh, tracks@, frame as int),
                assigned@.len() == observations@.len(),
                metadata@.len() == observations@.len(),
                candidate_map@.len() == observations@.len(),
                candidate_map@ == cm_final,
                assigned0.len() == observations@.len(),
                metadata0.len() == observations@.len(),
                claimable(pairs.skip(p as int), used@, observations@.len() as int),
                forall|x: int| 0 <= x < observations@.len() && (assigned@[x] != assigned0[x] || metadata@[x] != metadata0[x])
                    ==> exists|q: int| 0 <= q < p && {
                        let pair = #[trigger] pairs[q];
                        &&& pair.0 == x
                        &&& assigned@[x] == Some(pair.1)
                        &&& metadata@[x] == Some(residual_metadata(cm_final[x]@, pair.1))
                    },
                forall|q: int| 0 <= q < p ==> {
                    let pair = #[trigger] pairs[q];
                    unique_residual || residual_safe(cm_final[pair.0 as int]@, pair.1) ==> assigned@[pair.0 as int] is Some
                },
            decreases pairs.len() - p,
        {
            let (k, track_id) = chosen[p];
            assert(pairs.skip(p as int)[0] == pairs[p as int]);
            let ghost assigned_before = assigned@;
            let ghost metadata_before = metadata@;
            let candidates = &candidate_map[k];
            let ghost list = candidates@;
            let mut best: Option<u16> = None;
            let mut first_other_score: Option<u16> = None;
            let mut max_other_score: u16 = 0;
            let mut c: usize = 0;
            while c < candidates.len()
                invariant
                    c <= candidates@.len(),
                    list == candidates@,
                    best == first_score(list, track_id, c as int),
                    first_other_score == first_other(list, track_id, c as int),
                    max_other_score == max_other(list, track_id, c as int),
                decreases candidates@.len() - c,
            {
                let (candidate, value) = candidates[c];
                if candidate == track_id {
                    if best.is_none() {
                        best = Some(value);
                    }
                } else {
                    if first_other_score.is_none() {
                        first_other_score = Some(value);
                    }
                    if value > max_other_score {
                        max_other_score = value;
                    }
                }
                c = c + 1;
            }
            let second: u16 = match first_other_score {
                Some(v) => v,
                None => 0,
            };
            let safe = match best {
                Some(score) => score >= 75 && score >= second && score - second >= 15,
                None => false,
            };
            assert(safe == residual_safe(list, track_id));
            if unique_residual || safe {
                let score: u16 = match best {
                    Some(v) => v,
                    None => 100,
                };
                let margin: u16 = if score >= max_other_score { score - max_other_score } else { 0 };
                let ghost used_before = used@;
                claim(assigned, used, k, track_id, Ghost(fresh), Ghost(tracks@), Ghost(frame as int));
                metadata.set(k, Some(AssignmentMetadata { score, margin, phase: AssociationPhase::Residual, matching_tie: false }));
                proof {
                    assert(metadata@[k as int] == Some(residual_metadata(list, track_id)));
                    if unique_residual {
                        assert(pairs.skip(p as int + 1).len() == 0);
                    } else {
                        lemma_claim_rest(pairs, residual_observations@, views(candidate_map@), used_before, observations@.len() as int, p as int);
                    }
                    assert forall|x: int| 0 <= x < observations@.len() && (assigned@[x] != assigned0[x] || metadata@[x] != metadata0[x])
                        implies exists|q: int| 0 <= q < p + 1 && {
                            let pair = #[trigger] pairs[q];
                            &&& pair.0 == x
                            &&& assigned@[x] == Some(pair.1)
                            &&& metadata@[x] == Some(residual_metadata(cm_final[x]@, pair.1))
                        } by {
                        if x == k {
                            assert(pairs[p as int] == (k, track_id));
                        } else {
                            assert(assigned@[x] == assigned_before[x]);
                            assert(metadata@[x] == metadata_before[x]);
                        }
                    }
                    assert forall|q: int| 0 <= q < p + 1 implies {
                        let pair = #[trigger] pairs[q];
                        unique_residual || residual_safe(cm_final[pair.0 as int]@, pair.1) ==> assigned@[pair.0 as int] is Some
                    } by {
                        if pairs[q].0 != k && q < p {
                            if unique_residual {
                                assert(false);
                            } else {
                                assert(residual_observations@.contains(pairs[q].0));
                                let e = choose|e: int| 0 <= e < residual_observations@.len() && residual_observations@[e] == pairs[q].0;
                                assert(residual_observations@[e] < observations@.len());
                            }
                            assert(assigned@[pairs[q].0 as int] == assigned_before[pairs[q].0 as int]);
                        }
                    }
                }
            } else {
                proof {
                    lemma_skip_claimable(pairs, used@, observations@.len() as int, p as int);
                }
            }
            p = p + 1;
        }
        proof {
            assert forall|x: int| 0 <= x < observations@.len() && (#[trigger] assigned0[x]) is Some
                implies assigned@[x] == assigned0[x] && metadata@[x] == metadata0[x] by {
                if assigned@[x] != assigned0[x] || metadata@[x] != metadata0[x] {
                    let q = choose|q: int| 0 <= q < p && {
                        let pair = #[trigger] pairs[q];
                        &&& pair.0 == x
                        &&& assigned@[x] == Some(pair.1)
                        &&& metadata@[x] == Some(residual_metadata(cm_final[x]@, pair.1))
                    };
                    if unique_residual {
                        assert(pairs[q].0 == considered[0]);
                        assert(considered.contains(x as usize));
                    } else {
                        assert(residual_observations@.contains(pairs[q].0));
                    }
                    lemma_considered_unassigned(observations@, assigned0, family_handled@, observations@.len() as int, x as usize);
                }
            }
        }
    }
    solutions.len()
}

proof fn lemma_considered_unassigned(observations: Seq<Observation>, assigned: Seq<Option<usize>>, handled: Seq<bool>, n: int, x: usize)
    requires
        considered_by_residual(observations, assigned, handled, n).contains(x),
        n <= usize::MAX,
    ensures
        x < n,
        assigned[x as int] is None,
    decreases n,
{
    if n > 0 {
        let rest = considered_by_residual(observations, assigned, handled, n - 1);
        let k = n - 1;
        if assigned[k] is None && !handled[k] && (observations[k].generic_name || observations[k].copy_suffixes@.len() == 0) {
            let all = rest.push(k as usize);
            let i = choose|i: int| 0 <= i < all.len() && #[trigger] all[i] == x;
            if i < rest.len() {
                assert(rest[i] == x);
                lemma_considered_unassigned(observations, assigned, handled, n - 1, x);
            } else {
                assert(x as int == k);
            }
        } else {
            lemma_considered_unassigned(observations, assigned, handled, n - 1, x);
        }
    }
}

fn preassigned_lookup(preassigned: &Vec<((usize, u32), usize)>, frame: usize, id: u32) -> (track: Option<usize>)
    ensures
        track == preassigned_track(preassigned@, frame, id),
{
    let mut i: usize = 0;
    assert(preassigned@.skip(0) =~= preassigned@);
    while i < preassigned.len()
        invariant
            i <= preassigned@.len(),
            preassigned_track(preassigned@, frame, id) == preassigned_track(preassigned@.skip(i as int), frame, id),
        decreases preassigned@.len() - i,
    {
        assert(preassigned@.skip(i as int).drop_first() =~= preassigned@.skip(i as int + 1));
        let entry = preassigned[i];
        if entry.0.0 == frame && entry.0.1 == id {
            return Some(entry.1);
        }
        i = i + 1;
    }
    None
}

/// How many of the first `n` observations have the family key `key`.
pub open spec fn name_key_count(observations: Seq<Observation>, key: Seq<char>, n: int) -> nat
    decreases n,
{
    if n <= 0 {
        0
    } else {
        name_key_count(observations, key, n - 1) + if observations[n - 1].name_key@ == key { 1nat } else { 0nat }
    }
}

pub(crate) fn family_count(observations: &Vec<Observation>, observation: &Observation) -> (count: usize)
    ensures
        count == name_key_count(observations@, observation.name_key@, observations@.len() as int),
        count <= observations@.len(),
{
    let mut count: usize = 0;
    let mut i: usize = 0;
    while i < observations.len()
        invariant
            i <= observations@.len(),
            count <= i,
            count == name_key_count(observations@, observation.name_key@, i as int),
        decreases observations@.len() - i,
    {
        if observations[i].name_key == observation.name_key {
            count = count + 1;
        }
        i = i + 1;
    }
    count
}

/// What the association of a frame promises of the decisions it appends and of the tracks:
/// one decision per pending observation, in observation order, each naming a track that
/// holds the observation's cel in the frame, and no two naming the same track.
pub open spec fn frame_recorded(
    observations: Seq<Observation>,
    preassigned: Seq<((usize, u32), usize)>,
    k: int,
    added: Seq<AssociationDecision>,
    tracks: Seq<TrackBuilder>,
    frame: int,
) -> bool {
    let order = pending_indices(observations, preassigned, k);
    &&& added.len() == order.len()
    &&& forall|i: int| 0 <= i < added.len() ==> {
        &&& (#[trigger] added[i]).source_layer_id == observations[order[i]].source_layer_id
        &&& added[i].frame_index == observations[order[i]].frame_index
        &&& added[i].track_id < tracks.len()
        &&& tracks[added[i].track_id as int].cels@[frame] == Some(cel_of(observations[order[i]]))
    }
    &&& forall|i: int, j: int| 0 <= i < j < added.len() ==> (#[trigger] added[i]).track_id != (#[trigger] added[j]).track_id
}

pub(crate) proof fn lemma_pending_indices_bound(observations: Seq<Observation>, preassigned: Seq<((usize, u32), usize)>, k: int)
    requires
        0 <= k <= observations.len(),
    ensures
        forall|i: int| 0 <= i < pending_indices(observations, preassigned, k).len()
            ==> 0 <= #[trigger] pending_indices(observations, preassigned, k)[i] < k,
    decreases k,
{
    if k > 0 {
        lemma_pending_indices_bound(observations, preassigned, k - 1);
        let prev = pending_indices(observations, preassigned, k - 1);
        if pending(preassigned, observations[k - 1]) {
            assert forall|i: int| 0 <= i < prev.len() + 1 implies 0 <= #[trigger] prev.push(k - 1)[i] < k by {
                if i < prev.len() {
                    assert(prev.push(k - 1)[i] == prev[i]);
                }
            }
        }
    }
}

/// How the association of a frame changes the tracks: every cel already held stays; a new
/// track holds nothing outside the frame; and a cel gained in the frame lies on the track
/// of one of the appended decisions.
pub open spec fn frame_growth(before: Seq<TrackBuilder>, after: Seq<TrackBuilder>, added: Seq<AssociationDecision>, frame: int, frame_count: usize) -> bool {
    &&& before.len() <= after.len()
    &&& forall|t: int, g: int| 0 <= t < before.len() && 0 <= g < frame_count && (#[trigger] before[t].cels@[g]) is Some
        ==> after[t].cels@[g] == before[t].cels@[g]
    &&& forall|t: int, g: int| before.len() <= t < after.len() && 0 <= g < frame_count && g != frame ==> (#[trigger] after[t].cels@[g]) is None
    &&& forall|t: int| 0 <= t < after.len() && (#[trigger] after[t].cels@[frame]) is Some && (t >= before.len() || before[t].cels@[frame] is None)
        ==> exists|i: int| 0 <= i < added.len() && (#[trigger] added[i]).track_id == t
}

/// The score the first candidate entry for track `t` carries among the first `n`, or 100.
pub open spec fn listed_score(list: Seq<(usize, u16)>, t: usize, n: int) -> u16
    decreases n,
{
    if n <= 0 {
        100
    } else if first_score(list, t, n) is Some {
        first_score(list, t, n)->0
    } else {
        100
    }
}

/// The metadata a decision on an assigned track records: the pass's own, or, for an
/// observation placed before the passes, its candidate score (100 without one) with full
/// margin, as a residual choice.
pub open spec fn recorded_metadata(metadata: Option<AssignmentMetadata>, list: Seq<(usize, u16)>, t: usize) -> AssignmentMetadata {
    match metadata {
        Some(m) => m,
        None => AssignmentMetadata { score: listed_score(list, t, list.len() as int), margin: 100, phase: AssociationPhase::Residual, matching_tie: false },
    }
}

/// The score of an observation that opens a new track: its best candidate's, or zero.
pub open spec fn opening_score(list: Seq<(usize, u16)>) -> u16 {
    if list.len() > 0 { list[0].1 } else { 0 }
}

/// The margin of an observation that opens a new track: between its two best candidates,
/// else its score.
pub open spec fn opening_margin(list: Seq<(usize, u16)>) -> u16 {
    if list.len() >= 2 {
        if list[0].1 >= list[1].1 { (list[0].1 - list[1].1) as u16 } else { 0 }
    } else {
        opening_score(list)
    }
}

/// What a decision for pending observation `j` holds: the assigned track with the
/// metadata of the pass that chose it (Strong for the exact-name and exact-pixel passes,
/// Inferred otherwise), or a new track, Ambiguous when it had candidates but no safe
/// unique choice and NewTrack otherwise.
pub open spec fn decision_follows(
    d: AssociationDecision,
    j: int,
    assigned: Seq<Option<usize>>,
    metadata: Seq<Option<AssignmentMetadata>>,
    cmap: Seq<Vec<(usize, u16)>>,
    ties: Seq<bool>,
    solution_count: usize,
    existing: int,
) -> bool {
    match assigned[j] {
        Some(t) => {
            let m = recorded_metadata(metadata[j], cmap[j]@, t);
            &&& d.track_id == t
            &&& d.status == (if m.phase == AssociationPhase::Anchor || m.phase == AssociationPhase::ExactPixels {
                AssociationDecisionStatus::Strong
            } else {
                AssociationDecisionStatus::Inferred
            })
            &&& d.score == m.score
            &&& d.margin == m.margin
            &&& d.association_phase == m.phase
            &&& d.matching_tie == (m.matching_tie || ties[j])
        },
        None => {
            let list = cmap[j]@;
            let score = opening_score(list);
            let margin = opening_margin(list);
            &&& d.track_id >= existing
            &&& d.status == (if list.len() > 0 && (solution_count > 1 || score < 75 || margin < 15) {
                AssociationDecisionStatus::Ambiguous
            } else {
                AssociationDecisionStatus::NewTrack
            })
            &&& d.score == score
            &&& d.margin == margin
            &&& d.association_phase == AssociationPhase::NewTrack
            &&& d.matching_tie == (solution_count > 1 || ties[j])
        },
    }
}

/// Whether every appended decision follows the passes' outcome for its observation.
/// Whether each decision counts, as same-frame instances, the observations of the frame
/// that share the name family of the observation it is for.
pub open spec fn instances_recorded(
    observations: Seq<Observation>,
    preassigned: Seq<((usize, u32), usize)>,
    k: int,
    added: Seq<AssociationDecision>,
) -> bool {
    let order = pending_indices(observations, preassigned, k);
    forall|i: int| 0 <= i < added.len() && i < order.len() ==> (#[trigger] added[i]).same_frame_instance_count
        == name_key_count(observations, observations[order[i]].name_key@, observations.len() as int)
}

pub open spec fn decisions_follow(
    observations: Seq<Observation>,
    preassigned: Seq<((usize, u32), usize)>,
    k: int,
    added: Seq<AssociationDecision>,
    assigned: Seq<Option<usize>>,
    metadata: Seq<Option<AssignmentMetadata>>,
    cmap: Seq<Vec<(usize, u16)>>,
    ties: Seq<bool>,
    solution_count: usize,
    existing: int,
) -> bool {
    let order = pending_indices(observations, preassigned, k);
    added.len() == order.len() && forall|i: int| 0 <= i < added.len() ==> decision_follows(#[trigger] added[i], order[i], assigned, metadata, cmap, ties, solution_count, existing)
}

fn record_frame(
    observations: &Vec<Observation>,
    tracks: &mut Vec<TrackBuilder>,
    frame: usize,
    frame_count: usize,
    selectors: &Vec<FrameContainerInfo>,
    decisions: &mut Vec<AssociationDecision>,
    preassigned: &Vec<((usize, u32), usize)>,
    assigned: &Vec<Option<usize>>,
    metadata: &Vec<Option<AssignmentMetadata>>,
    candidate_map: &Vec<Vec<(usize, u16)>>,
    matching_ties: &Vec<bool>,
    solution_count: usize,
    Ghost(fresh): Ghost<Seq<bool>>,
    Ghost(used): Ghost<Seq<bool>>,
)
    requires
        frame < frame_count,
        frame <= u32::MAX,
        forall|k: int| 0 <= k < observations@.len() ==> (#[trigger] observations@[k]).frame_index == frame,
        tracks_wf(old(tracks)@, frame_count),
        claims_wf(assigned@, used, fresh, old(tracks)@, frame as int),
        fresh.len() == observations@.len(),
        forall|k: int| 0 <= k < observations@.len() ==> #[trigger] fresh[k] == pending(preassigned@, observations@[k]),
        metadata@.len() == observations@.len(),
        candidate_map@.len() == observations@.len(),
        matching_ties@.len() == observations@.len(),
    ensures
        tracks_wf(final(tracks)@, frame_count),
        old(tracks)@.len() <= final(tracks)@.len(),
        forall|t: int, g: int| 0 <= t < old(tracks)@.len() && 0 <= g < frame_count && g != frame
            ==> (#[trigger] final(tracks)@[t].cels@[g]) == old(tracks)@[t].cels@[g],
        final(decisions)@.len() >= old(decisions)@.len(),
        final(decisions)@.take(old(decisions)@.len() as int) == old(decisions)@,
        frame_recorded(observations@, preassigned@, observations@.len() as int,
            final(decisions)@.skip(old(decisions)@.len() as int), final(tracks)@, frame as int),
        frame_growth(old(tracks)@, final(tracks)@, final(decisions)@.skip(old(decisions)@.len() as int), frame as int, frame_count),
        decisions_follow(observations@, preassigned@, observations@.len() as int, final(decisions)@.skip(old(decisions)@.len() as int),
            assigned@, metadata@, candidate_map@, matching_ties@, solution_count, old(tracks)@.len() as int),
        forall|t: int| old(tracks)@.len() <= t < final(tracks)@.len() ==> (#[trigger] final(tracks)@[t]).cels@[frame as int] is Some,
        instances_recorded(observations@, preassigned@, observations@.len() as int, final(decisions)@.skip(old(decisions)@.len() as int)),
{
    let ghost tracks0 = tracks@;
    let ghost decisions0 = decisions@;
    let ghost start = decisions@.len() as int;
    let existing = tracks.len();
    assert(decisions@.skip(start) =~= Seq::<AssociationDecision>::empty());
    assert(decisions@.take(start) =~= decisions0);
    let mut k: usize = 0;
    while k < observations.len()
        invariant
            frame < frame_count,
            frame <= u32::MAX,
            forall|a: int| 0 <= a < observations@.len() ==> (#[trigger] observations@[a]).frame_index == frame,
            existing == tracks0.len(),
            claims_wf(assigned@, used, fresh, tracks0, frame as int),
            fresh.len() == observations@.len(),
            forall|a: int| 0 <= a < observations@.len() ==> #[trigger] fresh[a] == pending(preassigned@, observations@[a]),
            metadata@.len() == observations@.len(),
            candidate_map@.len() == observations@.len(),
            matching_ties@.len() == observations@.len(),
            k <= observations@.len(),
            tracks_wf(tracks@, frame_count),
            existing <= tracks@.len(),
            forall|t: int, g: int| 0 <= t < existing && 0 <= g < frame_count && g != frame
                ==> (#[trigger] tracks@[t].cels@[g]) == tracks0[t].cels@[g],
            start == decisions0.len(),
            decisions@.len() >= start,
            decisions@.take(start) == decisions0,
            frame_recorded(observations@, preassigned@, k as int, decisions@.skip(start), tracks@, frame as int),
            frame_growth(tracks0, tracks@, decisions@.skip(start), frame as int, frame_count),
            decisions_follow(observations@, preassigned@, k as int, decisions@.skip(start), assigned@, metadata@, candidate_map@, matching_ties@, solution_count, existing as int),
            instances_recorded(observations@, preassigned@, k as int, decisions@.skip(start)),
            forall|t: int| existing <= t < tracks@.len() ==> (#[trigger] tracks@[t]).cels@[frame as int] is Some,
            forall|i: int, b: int| #![trigger decisions@.skip(start)[i], assigned@[b]]
                0 <= i < decisions@.skip(start).len() && k <= b < observations@.len() && fresh[b]
                && assigned@[b] is Some ==> assigned@[b]->0 != decisions@.skip(start)[i].track_id,
        decreases observations@.len() - k,
    {
        let observation = &observations[k];
        let ghost iter_tracks = tracks@;
        let ghost added = decisions@.skip(start);
        let ghost order = pending_indices(observations@, preassigned@, k as int);
        proof {
            lemma_pending_indices_bound(observations@, preassigned@, k as int);
        }
        if preassigned_lookup(preassigned, observation.frame_index, observation.source_layer_id).is_some() {
            proof {
                assert(pending_indices(observations@, preassigned@, k as int + 1) == order);
            }
            k = k + 1;
            continue;
        }
        let candidates = &candidate_map[k];
        let instance_count = family_count(observations, observation);
        let track_id: usize;
        match assigned[k] {
            Some(assigned_track) => {
                track_id = assigned_track;
                let meta = match metadata[k] {
                    Some(m) => m,
                    None => {
                        let mut score: u16 = 100;
                        let mut found = false;
                        let mut c: usize = 0;
                        while c < candidates.len()
                            invariant
                                c <= candidates@.len(),
                                found == first_score(candidates@, track_id, c as int) is Some,
                                score == listed_score(candidates@, track_id, c as int),
                            decreases candidates@.len() - c,
                        {
                            if !found && candidates[c].0 == track_id {
                                score = candidates[c].1;
                                found = true;
                            }
                            c = c + 1;
                        }
                        AssignmentMetadata { score, margin: 100, phase: AssociationPhase::Residual, matching_tie: false }
                    },
                };
                let status = if meta.phase == AssociationPhase::Anchor || meta.phase == AssociationPhase::ExactPixels {
                    AssociationDecisionStatus::Strong
                } else {
                    AssociationDecisionStatus::Inferred
                };
                let evidence = evidence_for(observation, &tracks[track_id], meta.score, selectors);
                let exclusion = exclusion_evidence(observation, &tracks[track_id], selectors);
                let alternatives = candidate_names(candidates, tracks, track_id);
                let mut made = decision(observation, track_id, status, meta.score, meta.margin, evidence, alternatives);
                made.association_phase = meta.phase;
                made.same_frame_instance_count = instance_count;
                made.matching_tie = meta.matching_tie || matching_ties[k];
                made.rejection_reasons = rejection_reasons(candidates, status, made.matching_tie, instance_count);
                made.exclusion_evidence = exclusion;
                made.same_frame_conflict = exclusion == AssociationExclusionKind::CoVisible;
                made.order_evidence_ignored = exclusion == AssociationExclusionKind::StructuralMutualExclusion;
                decisions.push(made);
            },
            None => {
                let score: u16 = if candidates.len() > 0 { candidates[0].1 } else { 0 };
                let margin: u16 = if candidates.len() >= 2 {
                    if candidates[0].1 >= candidates[1].1 { candidates[0].1 - candidates[1].1 } else { 0 }
                } else {
                    score
                };
                let status = if candidates.len() > 0 && (solution_count > 1 || score < 75 || margin < 15) {
                    AssociationDecisionStatus::Ambiguous
                } else {
                    AssociationDecisionStatus::NewTrack
                };
                track_id = tracks.len();
                tracks.push(new_track(track_id, observation, frame_count));
                let mut evidence: Vec<String> = Vec::new();
                if status == AssociationDecisionStatus::Ambiguous {
                    evidence.push("candidate margin below safe threshold".to_owned());
                } else {
                    evidence.push("no safe existing track".to_owned());
                }
                let alternatives = candidate_names(candidates, tracks, track_id);
                let mut made = decision(observation, track_id, status, score, margin, evidence, alternatives);
                made.association_phase = AssociationPhase::NewTrack;
                made.same_frame_instance_count = instance_count;
                made.matching_tie = solution_count > 1 || matching_ties[k];
                made.rejection_reasons = rejection_reasons(candidates, status, made.matching_tie, instance_count);
                decisions.push(made);
            },
        }
        let ghost before_record = tracks@;
        record_assignment(
            &mut tracks[track_id],
            observation,
            PlannedCel { source_layer_id: observation.source_layer_id, source_frame_index: observation.frame_index as u32, z_index: 0 },
        );
        proof {
            let next_added = decisions@.skip(start);
            assert(next_added =~= added.push(decisions@.last()));
            assert(pending_indices(observations@, preassigned@, k as int + 1) == order.push(k as int));
            assert(decision_follows(decisions@.last(), k as int, assigned@, metadata@, candidate_map@, matching_ties@, solution_count, existing as int));
            assert forall|i: int| 0 <= i < next_added.len() implies decision_follows(#[trigger] next_added[i], pending_indices(observations@, preassigned@, k as int + 1)[i],
                assigned@, metadata@, candidate_map@, matching_ties@, solution_count, existing as int) by {
                if i < added.len() {
                    assert(next_added[i] == added[i]);
                }
            }
            assert forall|i: int| 0 <= i < next_added.len() && i < pending_indices(observations@, preassigned@, k as int + 1).len()
                implies (#[trigger] next_added[i]).same_frame_instance_count
                == name_key_count(observations@, observations@[pending_indices(observations@, preassigned@, k as int + 1)[i]].name_key@, observations@.len() as int) by {
                if i < added.len() {
                    assert(next_added[i] == added[i]);
                } else {
                    assert(next_added[i] == decisions@.last());
                }
            }
            assert forall|i: int| 0 <= i < added.len() implies (#[trigger] added[i]).track_id != track_id by {
                if assigned@[k as int] is Some {
                    assert(fresh[k as int]);
                } else {
                    assert(added[i].track_id < before_record.len());
                }
            }
            assert forall|i: int| 0 <= i < next_added.len() implies {
                &&& (#[trigger] next_added[i]).source_layer_id == observations@[pending_indices(observations@, preassigned@, k as int + 1)[i]].source_layer_id
                &&& next_added[i].frame_index == observations@[pending_indices(observations@, preassigned@, k as int + 1)[i]].frame_index
                &&& next_added[i].track_id < tracks@.len()
                &&& tracks@[next_added[i].track_id as int].cels@[frame as int] == Some(cel_of(observations@[pending_indices(observations@, preassigned@, k as int + 1)[i]]))
            } by {
                if i < added.len() {
                    assert(next_added[i] == added[i]);
                    assert(tracks@[added[i].track_id as int] == before_record[added[i].track_id as int]);
                } else {
                    assert(next_added[i] == decisions@.last());
                }
            }
            assert forall|i: int, b: int| #![trigger next_added[i], assigned@[b]]
                0 <= i < next_added.len() && k + 1 <= b < observations@.len() && fresh[b]
                && assigned@[b] is Some implies assigned@[b]->0 != next_added[i].track_id by {
                if i < added.len() {
                    assert(next_added[i] == added[i]);
                } else if assigned@[k as int] is Some {
                    assert(fresh[k as int]);
                    assert(assigned@[b] != assigned@[k as int]);
                } else {
                    assert(assigned@[b]->0 < existing);
                }
            }
            assert forall|t: int, g: int| 0 <= t < existing && 0 <= g < frame_count && g != frame
                implies (#[trigger] tracks@[t].cels@[g]) == tracks0[t].cels@[g] by {
                assert(before_record[t].cels@[g] == tracks0[t].cels@[g]);
            }
            assert forall|t: int| existing <= t < tracks@.len() implies (#[trigger] tracks@[t]).cels@[frame as int] is Some by {
                if t != track_id {
                    assert(tracks@[t] == before_record[t]);
                    assert(t < iter_tracks.len());
                    assert(before_record[t] == iter_tracks[t]);
                }
            }
            assert forall|t: int, g: int| 0 <= t < existing && 0 <= g < frame_count && (#[trigger] tracks0[t].cels@[g]) is Some
                implies tracks@[t].cels@[g] == tracks0[t].cels@[g] by {
                assert(before_record[t].cels@[g] == tracks0[t].cels@[g]);
                if t == track_id && g == frame {
                    assert(fresh[k as int]);
                    assert(assigned@[k as int] is Some);
                    assert(tracks0[t].cels@[frame as int] is None);
                }
            }
            assert forall|t: int, g: int| existing <= t < tracks@.len() && 0 <= g < frame_count && g != frame
                implies (#[trigger] tracks@[t].cels@[g]) is None by {
                if t < iter_tracks.len() {
                    assert(before_record[t] == iter_tracks[t]);
                    assert(iter_tracks[t].cels@[g] is None);
                } else {
                    assert(before_record[t] == before_record.last());
                    assert(before_record[t].cels@[g] is None);
                }
                if t != track_id {
                    assert(tracks@[t] == before_record[t]);
                } else {
                    assert(tracks@[t].cels@[g] == before_record[t].cels@[g]);
                }
            }
            assert forall|t: int| 0 <= t < tracks@.len() && (#[trigger] tracks@[t].cels@[frame as int]) is Some && (t >= existing || tracks0[t].cels@[frame as int] is None)
                implies exists|i: int| 0 <= i < next_added.len() && (#[trigger] next_added[i]).track_id == t by {
                if t == track_id {
                    assert(next_added[next_added.len() - 1] == decisions@.last());
                } else {
                    assert(tracks@[t] == before_record[t]);
                    let i = choose|i: int| 0 <= i < added.len() && (#[trigger] added[i]).track_id == t;
                    assert(next_added[i] == added[i]);
                }
            }
        }
        k = k + 1;
    }
}

/// Associates the observations of one frame with the tracks built so far: exact unique
/// names first, then exact pixels, then each name family as a one-to-one assignment
/// problem, then the remaining observations when exactly one complete assignment exists;
/// every observation left over opens a new track. Observations that an earlier pass
/// already placed (`preassigned`, by frame and source layer) are skipped. One decision is
/// appended per observation placed here.
/// Whether every candidate score is at most 100.
pub open spec fn scores_bounded(cmap: Seq<Vec<(usize, u16)>>) -> bool {
    forall|x: int, e: int| 0 <= x < cmap.len() && 0 <= e < cmap[x]@.len() ==> (#[trigger] cmap[x]@[e]).1 <= 100
}

/// Whether every recorded margin is at most its score, and every score at most 100.
pub open spec fn metadata_bounded(metadata: Seq<Option<AssignmentMetadata>>) -> bool {
    forall|x: int| 0 <= x < metadata.len() && (#[trigger] metadata[x]) is Some
        ==> metadata[x]->0.margin <= metadata[x]->0.score <= 100 && metadata[x]->0.phase != AssociationPhase::NewTrack
}

/// Whether every observation that still needed a track and was assigned one has the
/// metadata of the pass that chose it.
pub open spec fn assigned_with_metadata(assigned: Seq<Option<usize>>, metadata: Seq<Option<AssignmentMetadata>>, fresh: Seq<bool>) -> bool {
    forall|x: int| 0 <= x < assigned.len() && fresh[x] && (#[trigger] assigned[x]) is Some ==> metadata[x] is Some
}

proof fn lemma_first_score_bounded(list: Seq<(usize, u16)>, t: usize, n: int)
    requires
        0 <= n <= list.len(),
        forall|e: int| 0 <= e < list.len() ==> (#[trigger] list[e]).1 <= 100,
    ensures
        first_score(list, t, n) matches Some(v) ==> v <= 100,
    decreases n,
{
    if n > 0 {
        lemma_first_score_bounded(list, t, n - 1);
    }
}

proof fn lemma_family_list_bounded(
    observations: Seq<Observation>,
    k: int,
    tracks: Seq<TrackBuilder>,
    key: Seq<char>,
    used: Seq<bool>,
    frame: int,
    selectors: Seq<FrameContainerInfo>,
    n: int,
)
    ensures
        forall|e: int| 0 <= e < family_list(observations, k, tracks, key, used, frame, selectors, n).len()
            ==> (#[trigger] family_list(observations, k, tracks, key, used, frame, selectors, n)[e]).1 <= 100,
    decreases n,
{
    if n > 0 {
        lemma_family_list_bounded(observations, k, tracks, key, used, frame, selectors, n - 1);
        let rest = family_list(observations, k, tracks, key, used, frame, selectors, n - 1);
        let t = n - 1;
        if !used[t] && family_fit(key, tracks[t], frame) && copy_allowed(observations[k], tracks[t])
            && candidate_score_of(observations[k], tracks[t], observations, selectors) >= 40 {
            let now = family_list(observations, k, tracks, key, used, frame, selectors, n);
            assert forall|e: int| 0 <= e < now.len() implies (#[trigger] now[e]).1 <= 100 by {
                if e < rest.len() {
                    assert(now[e] == rest[e]);
                }
            }
        }
    }
}

proof fn lemma_residual_list_bounded(observations: Seq<Observation>, k: int, tracks: Seq<TrackBuilder>, offered: Seq<usize>, selectors: Seq<FrameContainerInfo>, n: int)
    ensures
        forall|e: int| 0 <= e < residual_list(observations, k, tracks, offered, selectors, n).len()
            ==> (#[trigger] residual_list(observations, k, tracks, offered, selectors, n)[e]).1 <= 100,
    decreases n,
{
    if n > 0 {
        lemma_residual_list_bounded(observations, k, tracks, offered, selectors, n - 1);
        let rest = residual_list(observations, k, tracks, offered, selectors, n - 1);
        let t = offered[n - 1] as int;
        if copy_allowed(observations[k], tracks[t]) && candidate_score_of(observations[k], tracks[t], observations, selectors) >= 40 {
            let now = residual_list(observations, k, tracks, offered, selectors, n);
            assert forall|e: int| 0 <= e < now.len() implies (#[trigger] now[e]).1 <= 100 by {
                if e < rest.len() {
                    assert(now[e] == rest[e]);
                }
            }
        }
    }
}

pub(crate) proof fn lemma_sorted_bounded(list: Seq<(usize, u16)>)
    requires
        forall|e: int| 0 <= e < list.len() ==> (#[trigger] list[e]).1 <= 100,
    ensures
        forall|e: int| 0 <= e < list.sort_by(candidate_order()).len() ==> (#[trigger] list.sort_by(candidate_order())[e]).1 <= 100,
{
    broadcast use vstd::seq_lib::group_to_multiset_ensures;
    lemma_candidate_order_total();
    list.lemma_sort_by_ensures(candidate_order());
    let sorted = list.sort_by(candidate_order());
    assert forall|e: int| 0 <= e < sorted.len() implies (#[trigger] sorted[e]).1 <= 100 by {
        assert(sorted.contains(sorted[e]));
        assert(list.contains(sorted[e]));
    }
}

proof fn lemma_bounds_name(
    observations: Seq<Observation>,
    tracks: Seq<TrackBuilder>,
    frame: int,
    fresh: Seq<bool>,
    assigned0: Seq<Option<usize>>,
    metadata0: Seq<Option<AssignmentMetadata>>,
    cmap0: Seq<Vec<(usize, u16)>>,
    used0: Seq<bool>,
    assigned: Seq<Option<usize>>,
    metadata: Seq<Option<AssignmentMetadata>>,
    cmap: Seq<Vec<(usize, u16)>>,
)
    requires
        name_pass_done(observations, tracks, frame, observations.len() as int, assigned0, metadata0, cmap0, used0, assigned, metadata, cmap),
        assigned0.len() == observations.len() && metadata0.len() == observations.len() && cmap0.len() == observations.len(),
        assigned.len() == observations.len() && metadata.len() == observations.len() && cmap.len() == observations.len(),
        scores_bounded(cmap0),
        metadata_bounded(metadata0),
        assigned_with_metadata(assigned0, metadata0, fresh),
    ensures
        scores_bounded(cmap),
        metadata_bounded(metadata),
        assigned_with_metadata(assigned, metadata, fresh),
{
    assert forall|x: int, e: int| 0 <= x < cmap.len() && 0 <= e < cmap[x]@.len() implies (#[trigger] cmap[x]@[e]).1 <= 100 by {
        if observations[x].generic_name {
            assert(assigned[x] == assigned0[x]);
            assert(cmap[x] == cmap0[x]);
        }
    }
    assert forall|x: int| 0 <= x < metadata.len() && (#[trigger] metadata[x]) is Some implies metadata[x]->0.margin <= metadata[x]->0.score <= 100 && metadata[x]->0.phase != AssociationPhase::NewTrack by {
        if observations[x].generic_name {
            assert(assigned[x] == assigned0[x]);
            assert(metadata[x] == metadata0[x]);
        } else if cmap[x]@.len() == 1 {
            assert(assigned[x] == Some(cmap[x]@[0].0));
        } else {
            assert(assigned[x] == assigned0[x]);
        }
    }
    assert forall|x: int| 0 <= x < assigned.len() && fresh.len() == assigned.len() && fresh[x] && (#[trigger] assigned[x]) is Some implies metadata[x] is Some by {
        if observations[x].generic_name {
            assert(assigned[x] == assigned0[x] && metadata[x] == metadata0[x]);
        } else if cmap[x]@.len() == 1 {
            assert(assigned[x] == Some(cmap[x]@[0].0));
        } else {
            assert(assigned[x] == assigned0[x] && metadata[x] == metadata0[x]);
        }
    }
}

proof fn lemma_bounds_pixel(
    observations: Seq<Observation>,
    tracks: Seq<TrackBuilder>,
    fresh: Seq<bool>,
    assigned0: Seq<Option<usize>>,
    metadata0: Seq<Option<AssignmentMetadata>>,
    cmap0: Seq<Vec<(usize, u16)>>,
    used0: Seq<bool>,
    assigned: Seq<Option<usize>>,
    metadata: Seq<Option<AssignmentMetadata>>,
    cmap: Seq<Vec<(usize, u16)>>,
)
    requires
        pixel_pass_done(observations, tracks, observations.len() as int, assigned0, metadata0, cmap0, used0, assigned, metadata, cmap),
        assigned0.len() == observations.len() && metadata0.len() == observations.len() && cmap0.len() == observations.len(),
        assigned.len() == observations.len() && metadata.len() == observations.len() && cmap.len() == observations.len(),
        scores_bounded(cmap0),
        metadata_bounded(metadata0),
        assigned_with_metadata(assigned0, metadata0, fresh),
    ensures
        scores_bounded(cmap),
        metadata_bounded(metadata),
        assigned_with_metadata(assigned, metadata, fresh),
{
    assert forall|x: int, e: int| 0 <= x < cmap.len() && 0 <= e < cmap[x]@.len() implies (#[trigger] cmap[x]@[e]).1 <= 100 by {
        if assigned0[x] is Some {
            assert(assigned[x] == assigned0[x]);
            assert(cmap[x] == cmap0[x]);
        }
    }
    assert forall|x: int| 0 <= x < metadata.len() && (#[trigger] metadata[x]) is Some implies metadata[x]->0.margin <= metadata[x]->0.score <= 100 && metadata[x]->0.phase != AssociationPhase::NewTrack by {
        if assigned0[x] is Some {
            assert(assigned[x] == assigned0[x]);
            assert(metadata[x] == metadata0[x]);
        } else if cmap[x]@.len() == 1 {
            assert(assigned[x] == Some(cmap[x]@[0].0));
        } else {
            assert(assigned[x] == assigned0[x]);
        }
    }
    assert forall|x: int| 0 <= x < assigned.len() && fresh.len() == assigned.len() && fresh[x] && (#[trigger] assigned[x]) is Some implies metadata[x] is Some by {
        if assigned0[x] is Some {
            assert(assigned[x] == assigned0[x] && metadata[x] == metadata0[x]);
        } else if cmap[x]@.len() == 1 {
            assert(assigned[x] == Some(cmap[x]@[0].0));
        } else {
            assert(assigned[x] == assigned0[x] && metadata[x] == metadata0[x]);
        }
    }
}

proof fn lemma_bounds_family(
    members: Seq<usize>,
    observations: Seq<Observation>,
    tracks: Seq<TrackBuilder>,
    selectors: Seq<FrameContainerInfo>,
    frame: int,
    fresh: Seq<bool>,
    used0: Seq<bool>,
    assigned0: Seq<Option<usize>>,
    metadata0: Seq<Option<AssignmentMetadata>>,
    cmap0: Seq<Vec<(usize, u16)>>,
    assigned: Seq<Option<usize>>,
    metadata: Seq<Option<AssignmentMetadata>>,
    cmap: Seq<Vec<(usize, u16)>>,
)
    requires
        members.len() > 0,
        forall|e: int| 0 <= e < members.len() ==> #[trigger] members[e] < observations.len(),
        assigned0.len() == observations.len() && metadata0.len() == observations.len() && cmap0.len() == observations.len(),
        assigned.len() == observations.len() && metadata.len() == observations.len() && cmap.len() == observations.len(),
        scores_bounded(cmap0),
        metadata_bounded(metadata0),
        assigned_with_metadata(assigned0, metadata0, fresh),
        forall|e: int| 0 <= e < members.len() ==> (#[trigger] cmap[members[e] as int])@ == family_list(observations, members[e] as int, tracks,
            observations[members[0] as int].name_key@, used0, frame, selectors, tracks.len() as int).sort_by(candidate_order()),
        forall|x: int| 0 <= x < observations.len() && !among(members, members.len() as int, x) ==> #[trigger] cmap[x] == cmap0[x],
        forall|x: int| 0 <= x < observations.len() && (assigned[x] != assigned0[x] || metadata[x] != metadata0[x])
            ==> exists|q: int| 0 <= q < family_pairs(members, cmap).len() && {
                let pair = #[trigger] family_pairs(members, cmap)[q];
                &&& pair.0 == x
                &&& assigned[x] == Some(pair.1)
                &&& metadata[x] == Some(AssignmentMetadata {
                    score: pair_score(cmap[x]@, pair.1),
                    margin: pair_margin(cmap[x]@, pair.1),
                    phase: AssociationPhase::Family,
                    matching_tie: false,
                })
            },
    ensures
        scores_bounded(cmap),
        metadata_bounded(metadata),
        assigned_with_metadata(assigned, metadata, fresh),
{
    assert forall|x: int, e: int| 0 <= x < cmap.len() && 0 <= e < cmap[x]@.len() implies (#[trigger] cmap[x]@[e]).1 <= 100 by {
        if among(members, members.len() as int, x) {
            let w = choose|w: int| 0 <= w < members.len() && #[trigger] members[w] == x;
            let list = family_list(observations, members[w] as int, tracks, observations[members[0] as int].name_key@, used0, frame, selectors, tracks.len() as int);
            lemma_family_list_bounded(observations, members[w] as int, tracks, observations[members[0] as int].name_key@, used0, frame, selectors, tracks.len() as int);
            lemma_sorted_bounded(list);
            assert(cmap[members[w] as int]@ == list.sort_by(candidate_order()));
        } else {
            assert(cmap[x] == cmap0[x]);
        }
    }
    assert forall|x: int| 0 <= x < metadata.len() && (#[trigger] metadata[x]) is Some implies metadata[x]->0.margin <= metadata[x]->0.score <= 100 && metadata[x]->0.phase != AssociationPhase::NewTrack by {
        if assigned[x] != assigned0[x] || metadata[x] != metadata0[x] {
            let q = choose|q: int| 0 <= q < family_pairs(members, cmap).len() && {
                let pair = #[trigger] family_pairs(members, cmap)[q];
                &&& pair.0 == x
                &&& assigned[x] == Some(pair.1)
                &&& metadata[x] == Some(AssignmentMetadata {
                    score: pair_score(cmap[x]@, pair.1),
                    margin: pair_margin(cmap[x]@, pair.1),
                    phase: AssociationPhase::Family,
                    matching_tie: false,
                })
            };
            let t = family_pairs(members, cmap)[q].1;
            lemma_first_score_bounded(cmap[x]@, t, cmap[x]@.len() as int);
        }
    }
    assert forall|x: int| 0 <= x < assigned.len() && fresh[x] && (#[trigger] assigned[x]) is Some implies metadata[x] is Some by {
        if assigned[x] != assigned0[x] || metadata[x] != metadata0[x] {
            let q = choose|q: int| 0 <= q < family_pairs(members, cmap).len() && {
                let pair = #[trigger] family_pairs(members, cmap)[q];
                &&& pair.0 == x
                &&& assigned[x] == Some(pair.1)
                &&& metadata[x] == Some(AssignmentMetadata {
                    score: pair_score(cmap[x]@, pair.1),
                    margin: pair_margin(cmap[x]@, pair.1),
                    phase: AssociationPhase::Family,
                    matching_tie: false,
                })
            };
        }
    }
}

proof fn lemma_bounds_residual(
    observations: Seq<Observation>,
    tracks: Seq<TrackBuilder>,
    selectors: Seq<FrameContainerInfo>,
    frame: int,
    fresh: Seq<bool>,
    used0: Seq<bool>,
    handled: Seq<bool>,
    assigned0: Seq<Option<usize>>,
    metadata0: Seq<Option<AssignmentMetadata>>,
    cmap0: Seq<Vec<(usize, u16)>>,
    assigned: Seq<Option<usize>>,
    metadata: Seq<Option<AssignmentMetadata>>,
    cmap: Seq<Vec<(usize, u16)>>,
)
    requires
        observations.len() <= usize::MAX,
        assigned0.len() == observations.len() && metadata0.len() == observations.len() && cmap0.len() == observations.len(),
        assigned.len() == observations.len() && metadata.len() == observations.len() && cmap.len() == observations.len(),
        scores_bounded(cmap0),
        metadata_bounded(metadata0),
        assigned_with_metadata(assigned0, metadata0, fresh),
        ({
            let considered = considered_by_residual(observations, assigned0, handled, observations.len() as int);
            let offered = offered_by_residual(tracks, used0, frame, tracks.len() as int);
            let solutions = residual_solutions(considered, offered, cmap);
            &&& forall|e: int| 0 <= e < considered.len() ==> (#[trigger] cmap[considered[e] as int])@
                == residual_list(observations, considered[e] as int, tracks, offered, selectors, offered.len() as int).sort_by(candidate_order())
            &&& forall|x: int| 0 <= x < observations.len() && !considered.contains(x as usize) ==> #[trigger] cmap[x] == cmap0[x]
            &&& forall|x: int| 0 <= x < observations.len() && (assigned[x] != assigned0[x] || metadata[x] != metadata0[x])
                ==> solutions.len() == 1 && exists|q: int| 0 <= q < solutions[0].len() && {
                    let pair = #[trigger] solutions[0][q];
                    &&& pair.0 == x
                    &&& assigned[x] == Some(pair.1)
                    &&& metadata[x] == Some(residual_metadata(cmap[x]@, pair.1))
                }
        }),
    ensures
        scores_bounded(cmap),
        metadata_bounded(metadata),
        assigned_with_metadata(assigned, metadata, fresh),
{
    let considered = considered_by_residual(observations, assigned0, handled, observations.len() as int);
    let offered = offered_by_residual(tracks, used0, frame, tracks.len() as int);
    let solutions = residual_solutions(considered, offered, cmap);
    assert forall|x: int, e: int| 0 <= x < cmap.len() && 0 <= e < cmap[x]@.len() implies (#[trigger] cmap[x]@[e]).1 <= 100 by {
        if considered.contains(x as usize) {
            let w = choose|w: int| 0 <= w < considered.len() && considered[w] == x as usize;
            let list = residual_list(observations, considered[w] as int, tracks, offered, selectors, offered.len() as int);
            lemma_residual_list_bounded(observations, considered[w] as int, tracks, offered, selectors, offered.len() as int);
            lemma_sorted_bounded(list);
            assert(considered[w] as int == x);
            assert(cmap[considered[w] as int]@ == list.sort_by(candidate_order()));
        } else {
            assert(cmap[x] == cmap0[x]);
        }
    }
    assert forall|x: int| 0 <= x < metadata.len() && (#[trigger] metadata[x]) is Some implies metadata[x]->0.margin <= metadata[x]->0.score <= 100 && metadata[x]->0.phase != AssociationPhase::NewTrack by {
        if assigned[x] != assigned0[x] || metadata[x] != metadata0[x] {
            let q = choose|q: int| 0 <= q < solutions[0].len() && {
                let pair = #[trigger] solutions[0][q];
                &&& pair.0 == x
                &&& assigned[x] == Some(pair.1)
                &&& metadata[x] == Some(residual_metadata(cmap[x]@, pair.1))
            };
            let t = solutions[0][q].1;
            lemma_first_score_bounded(cmap[x]@, t, cmap[x]@.len() as int);
        }
    }
    assert forall|x: int| 0 <= x < assigned.len() && fresh[x] && (#[trigger] assigned[x]) is Some implies metadata[x] is Some by {
        if assigned[x] != assigned0[x] || metadata[x] != metadata0[x] {
            let q = choose|q: int| 0 <= q < solutions[0].len() && {
                let pair = #[trigger] solutions[0][q];
                &&& pair.0 == x
                &&& assigned[x] == Some(pair.1)
                &&& metadata[x] == Some(residual_metadata(cmap[x]@, pair.1))
            };
        }
    }
}

pub(crate) proof fn lemma_pending_is_pending(observations: Seq<Observation>, preassigned: Seq<((usize, u32), usize)>, k: int, i: int)
    requires
        0 <= k <= observations.len(),
        0 <= i < pending_indices(observations, preassigned, k).len(),
    ensures
        pending(preassigned, observations[pending_indices(observations, preassigned, k)[i]]),
    decreases k,
{
    if k > 0 {
        let prev = pending_indices(observations, preassigned, k - 1);
        if pending(preassigned, observations[k - 1]) {
            if i < prev.len() {
                assert(prev.push(k - 1)[i] == prev[i]);
                lemma_pending_is_pending(observations, preassigned, k - 1, i);
            }
        } else {
            lemma_pending_is_pending(observations, preassigned, k - 1, i);
        }
    }
}

proof fn lemma_bounds_recorded(
    observations: Seq<Observation>,
    preassigned: Seq<((usize, u32), usize)>,
    added: Seq<AssociationDecision>,
    assigned: Seq<Option<usize>>,
    metadata: Seq<Option<AssignmentMetadata>>,
    cmap: Seq<Vec<(usize, u16)>>,
    ties: Seq<bool>,
    solution_count: usize,
    existing: int,
    fresh: Seq<bool>,
)
    requires
        fresh == Seq::new(observations.len() as nat, |a: int| pending(preassigned, observations[a])),
        assigned.len() == observations.len() && metadata.len() == observations.len() && cmap.len() == observations.len(),
        decisions_follow(observations, preassigned, observations.len() as int, added, assigned, metadata, cmap, ties, solution_count, existing),
        scores_bounded(cmap),
        metadata_bounded(metadata),
        assigned_with_metadata(assigned, metadata, fresh),
        forall|x: int| 0 <= x < assigned.len() && (#[trigger] assigned[x]) is Some ==> assigned[x]->0 < existing,
    ensures
        forall|i: int| 0 <= i < added.len() ==> (#[trigger] added[i]).margin <= added[i].score <= 100,
        forall|i: int| 0 <= i < added.len() ==> ((#[trigger] added[i]).association_phase == AssociationPhase::NewTrack
            <==> added[i].track_id >= existing),
        forall|i: int| 0 <= i < added.len() ==> if (#[trigger] added[i]).association_phase == AssociationPhase::NewTrack {
            added[i].status == AssociationDecisionStatus::NewTrack || added[i].status == AssociationDecisionStatus::Ambiguous
        } else {
            added[i].status == AssociationDecisionStatus::Strong || added[i].status == AssociationDecisionStatus::Inferred
        },
{
    let order = pending_indices(observations, preassigned, observations.len() as int);
    lemma_pending_indices_bound(observations, preassigned, observations.len() as int);
    assert forall|i: int| 0 <= i < added.len() implies {
        &&& (#[trigger] added[i]).margin <= added[i].score <= 100
        &&& (added[i].association_phase == AssociationPhase::NewTrack <==> added[i].track_id >= existing)
        &&& if added[i].association_phase == AssociationPhase::NewTrack {
            added[i].status == AssociationDecisionStatus::NewTrack || added[i].status == AssociationDecisionStatus::Ambiguous
        } else {
            added[i].status == AssociationDecisionStatus::Strong || added[i].status == AssociationDecisionStatus::Inferred
        }
    } by {
        let j = order[i];
        lemma_pending_is_pending(observations, preassigned, observations.len() as int, i);
        assert(fresh[j]);
        assert(decision_follows(added[i], j, assigned, metadata, cmap, ties, solution_count, existing));
        if assigned[j] is Some {
            assert(metadata[j] is Some);
            assert(assigned[j]->0 < existing);
        } else if cmap[j]@.len() > 0 {
            assert(cmap[j]@[0].1 <= 100);
        }
    }
}

/// Whether track `t` is the one exact name match of observation `j` in its frame: a track
/// with a specific name, free in the frame and placed for no observation of the frame
/// beforehand, whose normalized name is that of `j` and of no other observation of the frame,
/// while no other track carries that name.
pub open spec fn sole_name_match(
    observations: Seq<Observation>,
    tracks: Seq<TrackBuilder>,
    preassigned: Seq<((usize, u32), usize)>,
    frame: int,
    j: int,
    t: int,
) -> bool {
    &&& 0 <= j < observations.len()
    &&& 0 <= t < tracks.len()
    &&& !observations[j].generic_name
    &&& name_fit(observations[j], tracks[t], frame)
    &&& forall|u: int| 0 <= u < tracks.len() && u != t ==> !name_fit(observations[j], #[trigger] tracks[u], frame)
    &&& forall|i: int| 0 <= i < observations.len() && i != j ==> !name_fit(#[trigger] observations[i], tracks[t], frame)
    &&& forall|i: int| 0 <= i < observations.len()
        ==> preassigned_track(preassigned, frame as usize, (#[trigger] observations[i]).source_layer_id) != Some(t as usize)
}

/// The working state of the passes over one frame: per observation its claimed track, its
/// assignment metadata and its candidate list; per track whether it is taken; per
/// observation whether a family pass handled it and whether its matching tied.
pub type PassState = (
    Seq<Option<usize>>,
    Seq<Option<AssignmentMetadata>>,
    Seq<bool>,
    Seq<Vec<(usize, u16)>>,
    Seq<bool>,
    Seq<bool>,
);

/// The state before the passes: each observation holds the track placed for it beforehand,
/// if any; a track is taken exactly when such a placement names it; no metadata, no
/// candidates, nothing handled and no tie.
#[verifier::opaque]
pub open spec fn passes_start(
    observations: Seq<Observation>,
    tracks: Seq<TrackBuilder>,
    preassigned: Seq<((usize, u32), usize)>,
    frame: int,
    s: PassState,
) -> bool {
    let n = observations.len();
    &&& s.0.len() == n && s.1.len() == n && s.3.len() == n && s.4.len() == n && s.5.len() == n
    &&& s.2.len() == tracks.len()
    &&& forall|a: int| 0 <= a < n ==> #[trigger] s.0[a] == preassigned_track(preassigned, frame as usize, observations[a].source_layer_id)
    &&& forall|u: int| 0 <= u < tracks.len() ==> (#[trigger] s.2[u] <==> exists|a: int| 0 <= a < n && #[trigger] s.0[a] == Some(u as usize))
    &&& forall|a: int| 0 <= a < n ==> (#[trigger] s.1[a]) is None && s.3[a]@.len() == 0 && !s.4[a] && !s.5[a]
}

/// The exact-name pass, from state `s` to state `t` (see `name_pass_done`); a track it
/// claims becomes taken.
#[verifier::opaque]
pub open spec fn name_step(observations: Seq<Observation>, tracks: Seq<TrackBuilder>, frame: int, s: PassState, t: PassState) -> bool {
    &&& t.0.len() == s.0.len() && t.1.len() == s.1.len() && t.2.len() == s.2.len() && t.3.len() == s.3.len()
    &&& name_pass_done(observations, tracks, frame, observations.len() as int, s.0, s.1, s.3, s.2, t.0, t.1, t.3)
    &&& forall|u: int| 0 <= u < tracks.len() ==> #[trigger] t.2[u] == (s.2[u] || name_claimed_before(observations, t.3, observations.len() as int, u))
    &&& t.4 == s.4 && t.5 == s.5
}

/// The exact-pixel pass, from state `s` to state `t` (see `pixel_pass_done`); a track it
/// claims becomes taken.
#[verifier::opaque]
pub open spec fn pixel_step(observations: Seq<Observation>, tracks: Seq<TrackBuilder>, s: PassState, t: PassState) -> bool {
    &&& t.0.len() == s.0.len() && t.1.len() == s.1.len() && t.2.len() == s.2.len() && t.3.len() == s.3.len()
    &&& pixel_pass_done(observations, tracks, observations.len() as int, s.0, s.1, s.3, s.2, t.0, t.1, t.3)
    &&& forall|u: int| 0 <= u < tracks.len() ==> #[trigger] t.2[u] == (s.2[u] || pixel_claimed_before(s.0, t.3, observations.len() as int, u))
    &&& t.4 == s.4 && t.5 == s.5
}

/// The family pass over one family `members`, from state `s` to state `t`: each member
/// lists the family's candidate tracks in candidate order; a member is handled where it
/// has copy suffixes or a free track fits the family; members of tied matchings are marked;
/// a member changes only to the track of its pair in the family's matching, untied, with
/// the pair's score and margin; each untied confident pair is assigned; and a track the
/// family claims becomes taken. Nothing outside the family changes.
#[verifier::opaque]
pub open spec fn family_step(
    members: Seq<usize>,
    observations: Seq<Observation>,
    tracks: Seq<TrackBuilder>,
    selectors: Seq<FrameContainerInfo>,
    frame: int,
    s: PassState,
    t: PassState,
) -> bool {
    let n = observations.len();
    let key = observations[members[0] as int].name_key@;
    let pairs = family_pairs(members, t.3);
    let ties = family_ties(members, t.3);
    &&& t.0.len() == n && t.1.len() == n && t.2.len() == s.2.len() && t.3.len() == n && t.4.len() == n && t.5.len() == n
    &&& forall|e: int| 0 <= e < members.len() ==> (#[trigger] t.3[members[e] as int])@
        == family_list(observations, members[e] as int, tracks, key, s.2, frame, selectors, tracks.len() as int).sort_by(candidate_order())
    &&& forall|e: int| 0 <= e < members.len() ==> #[trigger] t.4[members[e] as int] == (s.4[members[e] as int]
        || observations[members[e] as int].copy_suffixes@.len() > 0
        || exists|u: int| 0 <= u < tracks.len() && !s.2[u] && #[trigger] family_fit(key, tracks[u], frame))
    &&& forall|x: int| 0 <= x < n && !among(members, members.len() as int, x) ==> #[trigger] t.3[x] == s.3[x]
        && t.4[x] == s.4[x] && t.0[x] == s.0[x] && t.1[x] == s.1[x]
    &&& forall|x: int| 0 <= x < n ==> #[trigger] t.5[x] == (s.5[x] || ties.contains(x as usize))
    &&& forall|x: int| 0 <= x < n && (t.0[x] != s.0[x] || t.1[x] != s.1[x])
        ==> exists|q: int| 0 <= q < pairs.len() && {
            let pair = #[trigger] pairs[q];
            &&& pair.0 == x
            &&& !ties.contains(pair.0)
            &&& t.0[x] == Some(pair.1)
            &&& t.1[x] == Some(AssignmentMetadata {
                score: pair_score(t.3[x]@, pair.1),
                margin: pair_margin(t.3[x]@, pair.1),
                phase: AssociationPhase::Family,
                matching_tie: false,
            })
        }
    &&& forall|q: int| 0 <= q < pairs.len() ==> {
        let pair = #[trigger] pairs[q];
        !ties.contains(pair.0) && family_confident(t.3[pair.0 as int]@, pair.1, tracks, observations[pair.0 as int].normalized_name@)
            ==> t.0[pair.0 as int] is Some
    }
    &&& forall|u: int| 0 <= u < tracks.len() ==> #[trigger] t.2[u] == (s.2[u] || family_claimed(members, observations, tracks, t.3, u))
}

/// The residual pass, from state `s` to state `t`, with `solution_count` matchings found:
/// the observations it considers list their candidates among the tracks it offers; an
/// observation changes only where exactly one matching was found, to its pair's track with
/// the residual metadata; each pair of a single matching that is unique or safe is
/// assigned; an observation assigned before is kept.
#[verifier::opaque]
pub open spec fn residual_step(
    observations: Seq<Observation>,
    tracks: Seq<TrackBuilder>,
    selectors: Seq<FrameContainerInfo>,
    frame: int,
    s: PassState,
    t: PassState,
    solution_count: usize,
) -> bool {
    let n = observations.len();
    let considered = considered_by_residual(observations, s.0, s.4, n as int);
    let offered = offered_by_residual(tracks, s.2, frame, tracks.len() as int);
    let cm = t.3;
    let solutions = residual_solutions(considered, offered, cm);
    &&& t.0.len() == n && t.1.len() == n && t.3.len() == n
    &&& t.4 == s.4 && t.5 == s.5
    &&& forall|e: int| 0 <= e < considered.len() ==> (#[trigger] cm[considered[e] as int])@
        == residual_list(observations, considered[e] as int, tracks, offered, selectors, offered.len() as int).sort_by(candidate_order())
    &&& forall|x: int| 0 <= x < n && !considered.contains(x as usize) ==> #[trigger] cm[x] == s.3[x]
    &&& solution_count == solutions.len()
    &&& forall|x: int| 0 <= x < n && (t.0[x] != s.0[x] || t.1[x] != s.1[x])
        ==> solutions.len() == 1 && exists|q: int| 0 <= q < solutions[0].len() && {
            let pair = #[trigger] solutions[0][q];
            &&& pair.0 == x
            &&& t.0[x] == Some(pair.1)
            &&& t.1[x] == Some(residual_metadata(cm[x]@, pair.1))
        }
    &&& solutions.len() == 1 ==> forall|q: int| 0 <= q < solutions[0].len() ==> {
        let pair = #[trigger] solutions[0][q];
        residual_unique(considered, offered) || residual_safe(cm[pair.0 as int]@, pair.1) ==> t.0[pair.0 as int] is Some
    }
    &&& forall|x: int| 0 <= x < n && (#[trigger] s.0[x]) is Some ==> t.0[x] == s.0[x] && t.1[x] == s.1[x]
}

/// The passes over one frame, in order: from the start state, the exact-name pass, the
/// exact-pixel pass, the family pass over each family of the observations still open after
/// those (grouped by name key, in order of first member), and the residual pass, which finds
/// `solution_count` matchings. `states` holds the state before the passes and after each.
#[verifier::opaque]
pub open spec fn frame_passes(
    observations: Seq<Observation>,
    tracks: Seq<TrackBuilder>,
    selectors: Seq<FrameContainerInfo>,
    preassigned: Seq<((usize, u32), usize)>,
    frame: int,
    families: Seq<Vec<usize>>,
    states: Seq<PassState>,
    solution_count: usize,
) -> bool {
    let f = families.len() as int;
    &&& states.len() == f + 4
    &&& passes_start(observations, tracks, preassigned, frame, states[0])
    &&& name_step(observations, tracks, frame, states[0], states[1])
    &&& pixel_step(observations, tracks, states[1], states[2])
    &&& grouped(families, observations, states[2].0, observations.len() as int)
    &&& forall|g: int| 0 <= g < f ==> #[trigger] family_step(families[g]@, observations, tracks, selectors, frame, states[2 + g], states[3 + g])
    &&& residual_step(observations, tracks, selectors, frame, states[2 + f], states[3 + f], solution_count)
}

/// A run of the passes whose final state the decisions follow witnesses that one exists.
proof fn lemma_run_witness(
    observations: Seq<Observation>,
    tracks: Seq<TrackBuilder>,
    selectors: Seq<FrameContainerInfo>,
    preassigned: Seq<((usize, u32), usize)>,
    frame: int,
    families: Seq<Vec<usize>>,
    states: Seq<PassState>,
    solution_count: usize,
    added: Seq<AssociationDecision>,
    existing: int,
)
    requires
        frame_passes(observations, tracks, selectors, preassigned, frame, families, states, solution_count),
        decisions_follow(observations, preassigned, observations.len() as int, added, states.last().0, states.last().1,
            states.last().3, states.last().5, solution_count, existing),
    ensures
        exists|f: Seq<Vec<usize>>, st: Seq<PassState>, c: usize|
            #[trigger] frame_passes(observations, tracks, selectors, preassigned, frame, f, st, c)
            && decisions_follow(observations, preassigned, observations.len() as int, added, st.last().0, st.last().1,
                st.last().3, st.last().5, c, existing),
{
}

/// Chains the passes' results into one run.
proof fn lemma_passes_chain(
    observations: Seq<Observation>,
    tracks: Seq<TrackBuilder>,
    selectors: Seq<FrameContainerInfo>,
    preassigned: Seq<((usize, u32), usize)>,
    frame: int,
    families: Seq<Vec<usize>>,
    s0: PassState,
    s1: PassState,
    middle: Seq<PassState>,
    last: PassState,
    solution_count: usize,
)
    requires
        middle.len() == families.len() + 1,
        passes_start(observations, tracks, preassigned, frame, s0),
        name_step(observations, tracks, frame, s0, s1),
        pixel_step(observations, tracks, s1, middle[0]),
        grouped(families, observations, middle[0].0, observations.len() as int),
        forall|g: int| 0 <= g < families.len() ==> #[trigger] family_step(families[g]@, observations, tracks, selectors, frame, middle[g], middle[g + 1]),
        residual_step(observations, tracks, selectors, frame, middle[families.len() as int], last, solution_count),
    ensures
        frame_passes(observations, tracks, selectors, preassigned, frame, families, seq![s0, s1] + middle + seq![last], solution_count),
        (seq![s0, s1] + middle + seq![last]).last() == last,
{
    reveal(frame_passes);
    let states = seq![s0, s1] + middle + seq![last];
    let f = families.len() as int;
    assert(states[0] == s0);
    assert(states[1] == s1);
    assert(states[2] == middle[0]);
    assert(states[2 + f] == middle[f]);
    assert(states[3 + f] == last);
    assert forall|g: int| 0 <= g < f implies #[trigger] family_step(families[g]@, observations, tracks, selectors, frame, states[2 + g], states[3 + g]) by {
        assert(states[2 + g] == middle[g]);
        assert(states[3 + g] == middle[g + 1]);
    }
}

#[verifier::spinoff_prover]
#[verifier::rlimit(100)]
pub fn associate_frame(
    observations: &Vec<Observation>,
    tracks: &mut Vec<TrackBuilder>,
    frame_count: usize,
    selectors: &Vec<FrameContainerInfo>,
    decisions: &mut Vec<AssociationDecision>,
    preassigned: &Vec<((usize, u32), usize)>,
)
    requires
        tracks_wf(old(tracks)@, frame_count),
        observations@.len() > 0 ==> observations@[0].frame_index < frame_count && observations@[0].frame_index <= u32::MAX,
        forall|k: int| 0 <= k < observations@.len() ==> (#[trigger] observations@[k]).frame_index == observations@[0].frame_index,
        forall|e: int| 0 <= e < preassigned@.len() ==> (#[trigger] preassigned@[e]).1 < old(tracks)@.len(),
        forall|t: int| 0 <= t < old(tracks)@.len() && observations@.len() > 0
            && (#[trigger] old(tracks)@[t]).cels@[observations@[0].frame_index as int] is Some
            ==> exists|k: int| 0 <= k < observations@.len()
                && preassigned_track(preassigned@, observations@[0].frame_index, (#[trigger] observations@[k]).source_layer_id) == Some(t as usize),
    ensures
        tracks_wf(final(tracks)@, frame_count),
        old(tracks)@.len() <= final(tracks)@.len(),
        observations@.len() > 0 ==> forall|t: int, g: int| 0 <= t < old(tracks)@.len() && 0 <= g < frame_count && g != observations@[0].frame_index
            ==> (#[trigger] final(tracks)@[t].cels@[g]) == old(tracks)@[t].cels@[g],
        final(decisions)@.len() >= old(decisions)@.len(),
        final(decisions)@.take(old(decisions)@.len() as int) == old(decisions)@,
        observations@.len() == 0 ==> final(decisions)@ == old(decisions)@ && final(tracks)@ == old(tracks)@,
        observations@.len() > 0 ==> frame_recorded(observations@, preassigned@, observations@.len() as int,
            final(decisions)@.skip(old(decisions)@.len() as int), final(tracks)@, observations@[0].frame_index as int),
        observations@.len() > 0 ==> frame_growth(old(tracks)@, final(tracks)@,
            final(decisions)@.skip(old(decisions)@.len() as int), observations@[0].frame_index as int, frame_count),
        observations@.len() > 0 ==> forall|i: int, t: int| 0 <= i < final(decisions)@.len() - old(decisions)@.len()
            && #[trigger] sole_name_match(observations@, old(tracks)@, preassigned@, observations@[0].frame_index as int,
                pending_indices(observations@, preassigned@, observations@.len() as int)[i], t)
            ==> {
                let d = final(decisions)@[old(decisions)@.len() + i];
                &&& d.track_id == t
                &&& d.status == AssociationDecisionStatus::Strong
                &&& d.score == 100
                &&& d.margin == 100
                &&& d.association_phase == AssociationPhase::Anchor
            },
        forall|q: int| old(decisions)@.len() <= q < final(decisions)@.len()
            ==> (#[trigger] final(decisions)@[q]).margin <= final(decisions)@[q].score <= 100,
        observations@.len() > 0 ==> forall|t: int| old(tracks)@.len() <= t < final(tracks)@.len()
            ==> (#[trigger] final(tracks)@[t]).cels@[observations@[0].frame_index as int] is Some,
        instances_recorded(observations@, preassigned@, observations@.len() as int, final(decisions)@.skip(old(decisions)@.len() as int)),
        observations@.len() > 0 ==> exists|families: Seq<Vec<usize>>, states: Seq<PassState>, solution_count: usize|
            #[trigger] frame_passes(observations@, old(tracks)@, selectors@, preassigned@, observations@[0].frame_index as int,
                families, states, solution_count)
            && decisions_follow(observations@, preassigned@, observations@.len() as int,
                final(decisions)@.skip(old(decisions)@.len() as int), states.last().0, states.last().1, states.last().3,
                states.last().5, solution_count, old(tracks)@.len() as int),
        forall|q: int| old(decisions)@.len() <= q < final(decisions)@.len()
            ==> ((#[trigger] final(decisions)@[q]).association_phase == AssociationPhase::NewTrack <==> final(decisions)@[q].track_id >= old(tracks)@.len()),
        forall|q: int| old(decisions)@.len() <= q < final(decisions)@.len()
            ==> if (#[trigger] final(decisions)@[q]).association_phase == AssociationPhase::NewTrack {
                final(decisions)@[q].status == AssociationDecisionStatus::NewTrack || final(decisions)@[q].status == AssociationDecisionStatus::Ambiguous
            } else {
                final(decisions)@[q].status == AssociationDecisionStatus::Strong || final(decisions)@[q].status == AssociationDecisionStatus::Inferred
            },
{
    if observations.len() == 0 {
        assert(decisions@.take(decisions@.len() as int) =~= decisions@);
        return;
    }
    let frame = observations[0].frame_index;
    let n = observations.len();
    let mut assigned: Vec<Option<usize>> = Vec::new();
    let mut used: Vec<bool> = Vec::new();
    let mut t: usize = 0;
    while t < tracks.len()
        invariant
            t <= tracks@.len(),
            used@.len() == t,
            forall|u: int| 0 <= u < t ==> !used@[u],
        decreases tracks@.len() - t,
    {
        used.push(false);
        t = t + 1;
    }
    let ghost fresh = Seq::new(n as nat, |k: int| pending(preassigned@, observations@[k]));
    let mut k: usize = 0;
    while k < n
        invariant
            n == observations@.len(),
            n > 0,
            frame == observations@[0].frame_index,
            forall|a: int| 0 <= a < observations@.len() ==> (#[trigger] observations@[a]).frame_index == frame,
            forall|e: int| 0 <= e < preassigned@.len() ==> (#[trigger] preassigned@[e]).1 < tracks@.len(),
            fresh == Seq::new(n as nat, |a: int| pending(preassigned@, observations@[a])),
            k <= n,
            assigned@.len() == k,
            used@.len() == tracks@.len(),
            forall|a: int| 0 <= a < k ==> #[trigger] assigned@[a] == preassigned_track(preassigned@, frame, observations@[a].source_layer_id),
            forall|a: int| 0 <= a < k && (#[trigger] assigned@[a]) is Some ==> assigned@[a]->0 < used@.len() && used@[assigned@[a]->0 as int],
            forall|u: int| 0 <= u < used@.len() && #[trigger] used@[u] ==> exists|a: int| 0 <= a < k && #[trigger] assigned@[a] == Some(u as usize),
        decreases n - k,
    {
        let found = preassigned_lookup(preassigned, frame, observations[k].source_layer_id);
        proof {
            lemma_preassigned_bound(preassigned@, frame, observations@[k as int].source_layer_id, tracks@.len() as int);
        }
        let ghost used_before = used@;
        let ghost assigned_before = assigned@;
        assigned.push(found);
        if let Some(target) = found {
            used.set(target, true);
        }
        proof {
            assert forall|u: int| 0 <= u < used@.len() && #[trigger] used@[u] implies exists|a: int| 0 <= a < k + 1 && #[trigger] assigned@[a] == Some(u as usize) by {
                if found == Some(u as usize) {
                    assert(assigned@[k as int] == Some(u as usize));
                } else {
                    assert(used_before[u]);
                    let a = choose|a: int| 0 <= a < k && #[trigger] assigned_before[a] == Some(u as usize);
                    assert(assigned@[a] == assigned_before[a]);
                }
            }
        }
        k = k + 1;
    }
    proof {
        assert forall|a: int, b: int| 0 <= a < assigned@.len() && 0 <= b < assigned@.len() && a != b && fresh[a]
            && (#[trigger] assigned@[a]) is Some && (#[trigger] assigned@[b]) is Some implies assigned@[a] != assigned@[b] by {
            assert(pending(preassigned@, observations@[a]));
        }
        assert forall|u: int| 0 <= u < tracks@.len() && (#[trigger] tracks@[u]).cels@[frame as int] is Some implies used@[u] by {
            let w = choose|w: int| 0 <= w < observations@.len()
                && preassigned_track(preassigned@, observations@[0].frame_index, (#[trigger] observations@[w]).source_layer_id) == Some(u as usize);
            assert(assigned@[w] == Some(u as usize));
        }
        assert(claims_wf(assigned@, used@, fresh, tracks@, frame as int));
    }
    let mut metadata: Vec<Option<AssignmentMetadata>> = Vec::new();
    let mut candidate_map: Vec<Vec<(usize, u16)>> = Vec::new();
    let mut family_handled: Vec<bool> = Vec::new();
    let mut matching_ties: Vec<bool> = Vec::new();
    let mut i: usize = 0;
    while i < n
        invariant
            i <= n,
            metadata@.len() == i,
            candidate_map@.len() == i,
            family_handled@.len() == i,
            matching_ties@.len() == i,
            forall|x: int| 0 <= x < i ==> (#[trigger] metadata@[x]) is None,
            forall|x: int| 0 <= x < i ==> (#[trigger] candidate_map@[x])@.len() == 0,
            forall|x: int| 0 <= x < i ==> !(#[trigger] family_handled@[x]) && !matching_ties@[x],
        decreases n - i,
    {
        metadata.push(None);
        candidate_map.push(Vec::new());
        family_handled.push(false);
        matching_ties.push(false);
        i = i + 1;
    }
    proof {
        assert(scores_bounded(candidate_map@));
        assert(metadata_bounded(metadata@));
        assert forall|x: int| 0 <= x < assigned@.len() && fresh[x] && (#[trigger] assigned@[x]) is Some implies metadata@[x] is Some by {
            assert(pending(preassigned@, observations@[x]));
        }
    }
    let ghost tracks0 = tracks@;
    let ghost assigned0 = assigned@;
    let ghost used0 = used@;
    let ghost metadata0 = metadata@;
    let ghost cmap0 = candidate_map@;
    let ghost s0: PassState = (assigned@, metadata@, used@, candidate_map@, family_handled@, matching_ties@);
    proof {
        assert forall|u: int| 0 <= u < tracks@.len() implies (#[trigger] used@[u] <==> exists|a: int| 0 <= a < n && #[trigger] assigned@[a] == Some(u as usize)) by {
            if exists|a: int| 0 <= a < n && #[trigger] assigned@[a] == Some(u as usize) {
                let a = choose|a: int| 0 <= a < n && #[trigger] assigned@[a] == Some(u as usize);
                assert(assigned@[a] is Some);
            }
        }
        assert(passes_start(observations@, tracks@, preassigned@, frame as int, s0)) by {
            reveal(passes_start);
            assert(s0.0.len() == n && s0.1.len() == n && s0.3.len() == n && s0.4.len() == n && s0.5.len() == n);
            assert(s0.2.len() == tracks@.len());
            assert(forall|a: int| 0 <= a < n ==> #[trigger] s0.0[a] == preassigned_track(preassigned@, frame, observations@[a].source_layer_id));
            assert(forall|a: int| 0 <= a < n ==> (#[trigger] s0.1[a]) is None && s0.3[a]@.len() == 0 && !s0.4[a] && !s0.5[a]);
        }
    }
    anchor_phase(observations, tracks, frame, frame_count, &mut assigned, &mut metadata, &mut used, &mut candidate_map, Ghost(fresh));
    let ghost assigned1 = assigned@;
    let ghost metadata1 = metadata@;
    let ghost cmap1 = candidate_map@;
    let ghost used1 = used@;
    let ghost s1: PassState = (assigned@, metadata@, used@, candidate_map@, family_handled@, matching_ties@);
    proof {
        assert(name_step(observations@, tracks@, frame as int, s0, s1)) by {
            reveal(name_step);
        }
    }
    proof {
        lemma_sole_match_anchored(observations@, tracks0, preassigned@, frame as int, assigned0, metadata0, cmap0, used0, assigned1, metadata1, cmap1);
        lemma_bounds_name(observations@, tracks0, frame as int, fresh, assigned0, metadata0, cmap0, used0, assigned1, metadata1, cmap1);
    }
    exact_pixels_phase(observations, tracks, frame, &mut assigned, &mut metadata, &mut used, &mut candidate_map, Ghost(fresh));
    let ghost assigned2 = assigned@;
    let ghost metadata2 = metadata@;
    let ghost s2: PassState = (assigned@, metadata@, used@, candidate_map@, family_handled@, matching_ties@);
    proof {
        assert(pixel_step(observations@, tracks@, s1, s2)) by {
            reveal(pixel_step);
        }
    }
    let ghost mut middle: Seq<PassState> = seq![s2];
    proof {
        lemma_bounds_pixel(observations@, tracks@, fresh, assigned1, metadata1, cmap1, used1, assigned2, metadata2, candidate_map@);
    }
    let families = group_families(observations, &assigned);
    let mut f: usize = 0;
    while f < families.len()
        invariant
            frame < frame_count,
            tracks_wf(tracks@, frame_count),
            forall|g: int| 0 <= g < families@.len() ==> (#[trigger] families@[g])@.len() > 0
                && forall|e: int| 0 <= e < families@[g]@.len() ==> #[trigger] families@[g]@[e] < observations@.len(),
            claims_wf(assigned@, used@, fresh, tracks@, frame as int),
            assigned@.len() == observations@.len(),
            metadata@.len() == observations@.len(),
            candidate_map@.len() == observations@.len(),
            family_handled@.len() == observations@.len(),
            matching_ties@.len() == observations@.len(),
            f <= families@.len(),
            grouped(families@, observations@, assigned2, observations@.len() as int),
            assigned2.len() == observations@.len(),
            forall|x: int| 0 <= x < observations@.len() && (#[trigger] assigned2[x]) is Some
                ==> assigned@[x] == assigned2[x] && metadata@[x] == metadata2[x],
            scores_bounded(candidate_map@),
            metadata_bounded(metadata@),
            assigned_with_metadata(assigned@, metadata@, fresh),
            middle.len() == f + 1,
            middle[0] == s2,
            middle[f as int] == (assigned@, metadata@, used@, candidate_map@, family_handled@, matching_ties@),
            tracks@ == tracks0,
            forall|g: int| 0 <= g < f ==> #[trigger] family_step(families@[g]@, observations@, tracks@, selectors@, frame as int, middle[g], middle[g + 1]),
        decreases families@.len() - f,
    {
        let ghost assigned_before = assigned@;
        let ghost metadata_before = metadata@;
        let ghost cmap_before = candidate_map@;
        let ghost used_before = used@;
        let ghost state_before: PassState = (assigned@, metadata@, used@, candidate_map@, family_handled@, matching_ties@);
        family_phase_one(
            &families[f], observations, tracks, selectors, frame, frame_count,
            &mut assigned, &mut metadata, &mut used, &mut candidate_map, &mut family_handled, &mut matching_ties, Ghost(fresh),
        );
        proof {
            assert forall|x: int| 0 <= x < observations@.len() && (#[trigger] assigned2[x]) is Some
                implies assigned@[x] == assigned2[x] && metadata@[x] == metadata2[x] by {
                if among(families@[f as int]@, families@[f as int]@.len() as int, x) {
                    let e = choose|e: int| 0 <= e < families@[f as int]@.len() && #[trigger] families@[f as int]@[e] == x;
                    assert(groupable(observations@, assigned2, families@[f as int]@[e] as int));
                }
                assert(assigned@[x] == assigned_before[x] && metadata@[x] == metadata_before[x]);
            }
            lemma_bounds_family(families@[f as int]@, observations@, tracks@, selectors@, frame as int, fresh, used_before,
                assigned_before, metadata_before, cmap_before, assigned@, metadata@, candidate_map@);
            let state_after: PassState = (assigned@, metadata@, used@, candidate_map@, family_handled@, matching_ties@);
            assert(family_step(families@[f as int]@, observations@, tracks@, selectors@, frame as int, state_before, state_after)) by {
                reveal(family_step);
            }
            let grown = middle.push(state_after);
            assert forall|g: int| 0 <= g < f + 1 implies #[trigger] family_step(families@[g]@, observations@, tracks@, selectors@, frame as int, grown[g], grown[g + 1]) by {
                if g < f {
                    assert(grown[g] == middle[g] && grown[g + 1] == middle[g + 1]);
                }
            }
            middle = grown;
        }
        f = f + 1;
    }
    let ghost assigned3 = assigned@;
    let ghost metadata3 = metadata@;
    let ghost cmap3 = candidate_map@;
    let ghost used3 = used@;
    let solution_count = residual_phase(
        observations, tracks, selectors, frame, frame_count,
        &mut assigned, &mut metadata, &mut used, &mut candidate_map, &family_handled, Ghost(fresh),
    );
    let ghost assigned4 = assigned@;
    let ghost metadata4 = metadata@;
    let ghost s4: PassState = (assigned@, metadata@, used@, candidate_map@, family_handled@, matching_ties@);
    proof {
        assert(residual_step(observations@, tracks@, selectors@, frame as int, middle[families@.len() as int], s4, solution_count)) by {
            reveal(residual_step);
        }
        lemma_passes_chain(observations@, tracks@, selectors@, preassigned@, frame as int, families@, s0, s1, middle, s4, solution_count);
    }
    proof {
        lemma_bounds_residual(observations@, tracks@, selectors@, frame as int, fresh, used3, family_handled@,
            assigned3, metadata3, cmap3, assigned4, metadata4, candidate_map@);
    }
    proof {
        assert forall|x: int| 0 <= x < assigned@.len() && (#[trigger] assigned@[x]) is Some implies assigned@[x]->0 < tracks0.len() by {
            assert(assigned@[x]->0 < used@.len());
        }
    }
    let ghost start = decisions@.len();
    record_frame(
        observations, tracks, frame, frame_count, selectors, decisions, preassigned,
        &assigned, &metadata, &candidate_map, &matching_ties, solution_count, Ghost(fresh), Ghost(used@),
    );
    proof {
        lemma_run_witness(observations@, tracks0, selectors@, preassigned@, frame as int, families@, seq![s0, s1] + middle + seq![s4],
            solution_count, decisions@.skip(start as int), tracks0.len() as int);
    }
    proof {
        let order = pending_indices(observations@, preassigned@, n as int);
        let added = decisions@.skip(start as int);
        lemma_bounds_recorded(observations@, preassigned@, added, assigned@, metadata@, candidate_map@, matching_ties@, solution_count,
            tracks0.len() as int, fresh);
        assert forall|q: int| start <= q < decisions@.len() implies {
            &&& (#[trigger] decisions@[q]).margin <= decisions@[q].score <= 100
            &&& (decisions@[q].association_phase == AssociationPhase::NewTrack <==> decisions@[q].track_id >= tracks0.len())
            &&& if decisions@[q].association_phase == AssociationPhase::NewTrack {
                decisions@[q].status == AssociationDecisionStatus::NewTrack || decisions@[q].status == AssociationDecisionStatus::Ambiguous
            } else {
                decisions@[q].status == AssociationDecisionStatus::Strong || decisions@[q].status == AssociationDecisionStatus::Inferred
            }
        } by {
            assert(added[q - start] == decisions@[q]);
        }
        assert forall|i: int, t: int| 0 <= i < decisions@.len() - start
            && #[trigger] sole_name_match(observations@, tracks0, preassigned@, frame as int, order[i], t) implies {
                let d = decisions@[start + i];
                &&& d.track_id == t
                &&& d.status == AssociationDecisionStatus::Strong
                &&& d.score == 100
                &&& d.margin == 100
                &&& d.association_phase == AssociationPhase::Anchor
            } by {
            let j = order[i];
            assert(added[i] == decisions@[start + i]);
            assert(decision_follows(added[i], j, assigned4, metadata4, candidate_map@, matching_ties@, solution_count, tracks0.len() as int));
            assert(assigned1[j] == Some(t as usize));
            assert(assigned2[j] == assigned1[j]);
            assert(assigned3[j] == assigned2[j]);
            assert(assigned4[j] == assigned3[j]);
        }
    }
}

/// A sole name match is claimed by the name pass, with its full score.
proof fn lemma_sole_match_anchored(
    observations: Seq<Observation>,
    tracks: Seq<TrackBuilder>,
    preassigned: Seq<((usize, u32), usize)>,
    frame: int,
    assigned0: Seq<Option<usize>>,
    metadata0: Seq<Option<AssignmentMetadata>>,
    cmap0: Seq<Vec<(usize, u16)>>,
    used0: Seq<bool>,
    assigned: Seq<Option<usize>>,
    metadata: Seq<Option<AssignmentMetadata>>,
    cmap: Seq<Vec<(usize, u16)>>,
)
    requires
        name_pass_done(observations, tracks, frame, observations.len() as int, assigned0, metadata0, cmap0, used0, assigned, metadata, cmap),
        used0.len() == tracks.len(),
        assigned0.len() == observations.len(),
        forall|a: int| 0 <= a < observations.len() ==> #[trigger] assigned0[a] == preassigned_track(preassigned, frame as usize, observations[a].source_layer_id),
        forall|u: int| 0 <= u < used0.len() && #[trigger] used0[u] ==> exists|a: int| 0 <= a < observations.len() && #[trigger] assigned0[a] == Some(u as usize),
    ensures
        forall|j: int, t: int| #[trigger] sole_name_match(observations, tracks, preassigned, frame, j, t)
            ==> assigned[j] == Some(t as usize)
                && metadata[j] == Some(AssignmentMetadata { score: 100, margin: 100, phase: AssociationPhase::Anchor, matching_tie: false }),
{
    assert forall|j: int, t: int| #[trigger] sole_name_match(observations, tracks, preassigned, frame, j, t)
        implies assigned[j] == Some(t as usize)
            && metadata[j] == Some(AssignmentMetadata { score: 100, margin: 100, phase: AssociationPhase::Anchor, matching_tie: false }) by {
        if used0[t] {
            let a = choose|a: int| 0 <= a < observations.len() && #[trigger] assigned0[a] == Some(t as usize);
            assert(preassigned_track(preassigned, frame as usize, observations[a].source_layer_id) != Some(t as usize));
        }
        if name_claimed_before(observations, cmap, j, t) {
            let w = choose|w: int| 0 <= w < j && #[trigger] name_claim(observations, cmap, w, t);
            assert(cmap[w]@[0].0 == t);
            assert(name_fit(observations[w], tracks[t], frame));
        }
        assert(name_fit(observations[j], tracks[t], frame));
        let e = choose|e: int| 0 <= e < cmap[j]@.len() && (#[trigger] cmap[j]@[e]).0 == t;
        assert forall|x: int| 0 <= x < cmap[j]@.len() implies (#[trigger] cmap[j]@[x]).0 == t by {
            let u = cmap[j]@[x].0 as int;
            assert(name_fit(observations[j], tracks[u], frame));
        }
        if cmap[j]@.len() > 1 {
            assert(cmap[j]@[0].0 < cmap[j]@[1].0);
        }
        assert(cmap[j]@.len() == 1);
    }
}

proof fn lemma_preassigned_bound(preassigned: Seq<((usize, u32), usize)>, frame: usize, id: u32, bound: int)
    requires
        forall|e: int| 0 <= e < preassigned.len() ==> (#[trigger] preassigned[e]).1 < bound,
    ensures
        preassigned_track(preassigned, frame, id) matches Some(t) ==> t < bound,
    decreases preassigned.len(),
{
    if preassigned.len() > 0 && preassigned[0].0 != (frame, id) {
        assert forall|e: int| 0 <= e < preassigned.drop_first().len() implies (#[trigger] preassigned.drop_first()[e]).1 < bound by {
            assert(preassigned.drop_first()[e] == preassigned[e + 1]);
        }
        lemma_preassigned_bound(preassigned.drop_first(), frame, id, bound);
    }
}

} // verus!
