//! The compact association of one frame: a unique exact name, then unique exact pixels,
//! then a scored residual matching, each claiming tracks not yet taken in the frame.
use vstd::prelude::*;

use super::association::{cel_of, lemma_sorted_bounded, sort_candidates, tracks_wf};
use super::matching::find_unique_matchings;
use super::scoring::{
    best_geometry_score, best_geometry_similarity, best_group_score, best_group_similarity, candidate_names,
    frame_rank, has_persistent_group, has_same_pixels, holds_same_pixels, median_of, median_order, persistent_group,
    push_text, rank_from, texts,
};
use super::{
    decision, new_track, record_assignment, AssociationDecision, AssociationDecisionStatus, AssociationPhase,
    Observation, PlannedCel, TrackBuilder,
};

verus! {

/// The compact candidate score of an observation against a track, from 0 to 100: 30 for
/// the same name family where both names are specific, the best group path score, 20 less
/// four points per step of distance from the track's median order (at most five steps),
/// the best geometry score and 10 for exact pixels, scaled by the points available (100
/// with names, 70 without).
pub open spec fn compact_score_of(observation: Observation, track: TrackBuilder, frame: Seq<Observation>) -> int {
    let name_available = !observation.generic_name && !track.generic_name;
    let name: int = if name_available && observation.name_key@ == track.name_key@ { 30 } else { 0 };
    let rank = rank_from(frame, observation.source_layer_id, 0) as i32;
    let median = match median_of(track.observations@) {
        Some(m) => m,
        None => rank,
    };
    let d = if rank >= median { rank - median } else { median - rank };
    let order = 20 - (if d > 5 { 5 } else { d }) * 4;
    let total = name + best_group_score(observation.group_path@, track.group_paths@) + order
        + best_geometry_score(observation, track.observations@)
        + (if has_same_pixels(observation, track.observations@) { 10int } else { 0int });
    let scaled = total * 100 / (if name_available { 100int } else { 70int });
    if scaled > 100 { 100 } else { scaled }
}

/// Scores a candidate track for the compact residual matching.
pub fn compact_candidate_score(observation: &Observation, track: &TrackBuilder, frame_observations: &Vec<Observation>) -> (score: u16)
    ensures
        score == compact_score_of(*observation, *track, frame_observations@),
        score <= 100,
{
    let name_available = !observation.generic_name && !track.generic_name;
    let name: u16 = if name_available && observation.name_key == track.name_key { 30 } else { 0 };
    let group = best_group_similarity(&observation.group_path, &track.group_paths);
    let rank = frame_rank(frame_observations, observation.source_layer_id) as i32;
    let median = match median_order(track) {
        Some(m) => m,
        None => rank,
    };
    let distance: i64 = if rank >= median { rank as i64 - median as i64 } else { median as i64 - rank as i64 };
    let steps: u16 = if distance > 5 { 5 } else { distance as u16 };
    let order: u16 = 20 - steps * 4;
    let geometry = best_geometry_similarity(observation, &track.observations);
    let pixels: u16 = if holds_same_pixels(observation, track) { 10 } else { 0 };
    let total: u32 = name as u32 + group as u32 + order as u32 + geometry as u32 + pixels as u32;
    let weight: u32 = if name_available { 100 } else { 70 };
    let scaled = total * 100 / weight;
    if scaled > 100 { 100 } else { scaled as u16 }
}

/// The evidence the compact association records for an assignment, in order: the same
/// name family, a persistent group path, exact pixels, and a score of at least 40.
pub open spec fn compact_evidence_list(observation: Observation, track: TrackBuilder, score: u16) -> Seq<Seq<char>> {
    let name_part: Seq<Seq<char>> = if !observation.generic_name && observation.name_key@ == track.name_key@ { seq!["normalized name"@] } else { Seq::empty() };
    let group_part: Seq<Seq<char>> = if has_persistent_group(observation, track) { seq!["persistent group path"@] } else { Seq::empty() };
    let pixel_part: Seq<Seq<char>> = if has_same_pixels(observation, track.observations@) { seq!["exact RGBA pixels"@] } else { Seq::empty() };
    let score_part: Seq<Seq<char>> = if score >= 40 { seq!["geometry/order context"@] } else { Seq::empty() };
    name_part + group_part + pixel_part + score_part
}

/// Lists the compact evidence behind an assignment.
pub fn compact_evidence_for(observation: &Observation, track: &TrackBuilder, score: u16) -> (evidence: Vec<String>)
    ensures
        texts(evidence@) == compact_evidence_list(*observation, *track, score),
{
    let mut evidence: Vec<String> = Vec::new();
    if !observation.generic_name && observation.name_key == track.name_key {
        push_text(&mut evidence, "normalized name".to_owned());
    }
    let ghost name_part = texts(evidence@);
    if persistent_group(observation, track) {
        push_text(&mut evidence, "persistent group path".to_owned());
    }
    let ghost group_part = texts(evidence@);
    if holds_same_pixels(observation, track) {
        push_text(&mut evidence, "exact RGBA pixels".to_owned());
    }
    let ghost pixel_part = texts(evidence@);
    if score >= 40 {
        push_text(&mut evidence, "geometry/order context".to_owned());
    }
    assert(texts(evidence@) =~= compact_evidence_list(*observation, *track, score));
    evidence
}

/// Whether track `t` is the only track of observation `j`'s name family and no other
/// observation of the frame has a specific name of that family: the compact name pass
/// then claims `t` for `j`.
pub open spec fn sole_family_track(observations: Seq<Observation>, tracks: Seq<TrackBuilder>, j: int, t: int) -> bool {
    &&& 0 <= j < observations.len()
    &&& 0 <= t < tracks.len()
    &&& !observations[j].generic_name
    &&& tracks[t].name_key@ == observations[j].name_key@
    &&& forall|u: int| 0 <= u < tracks.len() && u != t ==> (#[trigger] tracks[u]).name_key@ != observations[j].name_key@
    &&& forall|i: int| 0 <= i < observations.len() && i != j
        ==> (#[trigger] observations[i]).generic_name || observations[i].name_key@ != observations[j].name_key@
}

/// Whether one of the `k` decisions from `start` names track `t`.
pub open spec fn decided_track(decisions: Seq<AssociationDecision>, start: int, k: int, t: int) -> bool {
    exists|i: int| 0 <= i < k && #[trigger] decisions[start + i].track_id == t
}

/// The score listed for a track in a candidate list (its first entry), and the score of the
/// first entry for another track, zero without one.
fn listed_scores(list: &Vec<(usize, u16)>, track_id: usize) -> (scores: (Option<u16>, u16))
    requires
        forall|e: int| 0 <= e < list@.len() ==> (#[trigger] list@[e]).1 <= 100,
    ensures
        scores.0 matches Some(v) ==> v <= 100,
        scores.1 <= 100,
        list@.len() == 0 ==> scores == (None::<u16>, 0u16),
{
    let mut best: Option<u16> = None;
    let mut second: Option<u16> = None;
    let mut i: usize = 0;
    while i < list.len()
        invariant
            i <= list@.len(),
            forall|e: int| 0 <= e < list@.len() ==> (#[trigger] list@[e]).1 <= 100,
            best matches Some(v) ==> v <= 100,
            second matches Some(v) ==> v <= 100,
            list@.len() == 0 ==> best is None && second is None,
        decreases list@.len() - i,
    {
        let (candidate, value) = list[i];
        if candidate == track_id {
            if best.is_none() {
                best = Some(value);
            }
        } else if second.is_none() {
            second = Some(value);
        }
        i = i + 1;
    }
    let other: u16 = match second {
        Some(v) => v,
        None => 0,
    };
    (best, other)
}

/// Associates one frame by the compact strategy. An observation with a specific name takes
/// the only free track of its name family; an observation still open takes the only free
/// track that holds its exact pixels; the rest are matched among the free tracks by compact
/// score (at least 40), and a matching pair is kept where exactly one matching exists and
/// the pair is the only one left or scores at least 75 with a lead of at least 15. Every
/// observation then gets a decision, in order, and its cel: on its track, or on a new track
/// (ambiguous where candidates existed but none was safe).
#[verifier::rlimit(60)]
pub fn associate_frame_compact(
    observations: &Vec<Observation>,
    tracks: &mut Vec<TrackBuilder>,
    frame_count: usize,
    decisions: &mut Vec<AssociationDecision>,
)
    requires
        tracks_wf(old(tracks)@, frame_count),
        observations@.len() > 0 ==> observations@[0].frame_index < frame_count && observations@[0].frame_index <= u32::MAX,
        forall|k: int| 0 <= k < observations@.len() ==> (#[trigger] observations@[k]).frame_index == observations@[0].frame_index,
        observations@.len() > 0 ==> forall|t: int| 0 <= t < old(tracks)@.len()
            ==> (#[trigger] old(tracks)@[t]).cels@[observations@[0].frame_index as int] is None,
    ensures
        observations@.len() == 0 ==> final(tracks)@ == old(tracks)@ && final(decisions)@ == old(decisions)@,
        tracks_wf(final(tracks)@, frame_count),
        old(tracks)@.len() <= final(tracks)@.len(),
        final(decisions)@.len() == old(decisions)@.len() + observations@.len(),
        final(decisions)@.take(old(decisions)@.len() as int) == old(decisions)@,
        observations@.len() > 0 ==> forall|t: int, g: int| 0 <= t < final(tracks)@.len() && 0 <= g < frame_count
            && g != observations@[0].frame_index && (t >= old(tracks)@.len() || (#[trigger] final(tracks)@[t].cels@[g]) != old(tracks)@[t].cels@[g])
            ==> t >= old(tracks)@.len() && final(tracks)@[t].cels@[g] is None,
        forall|i: int| 0 <= i < observations@.len() ==> {
            let d = #[trigger] final(decisions)@[old(decisions)@.len() + i];
            &&& d.source_layer_id == observations@[i].source_layer_id
            &&& d.frame_index == observations@[i].frame_index
            &&& d.track_id < final(tracks)@.len()
            &&& final(tracks)@[d.track_id as int].cels@[observations@[i].frame_index as int] == Some(cel_of(observations@[i]))
            &&& d.margin <= d.score <= 100
            &&& (d.association_phase == AssociationPhase::NewTrack <==> d.track_id >= old(tracks)@.len())
            &&& (d.association_phase == AssociationPhase::NewTrack ==> d.status == AssociationDecisionStatus::NewTrack
                || d.status == AssociationDecisionStatus::Ambiguous)
            &&& (d.association_phase == AssociationPhase::Family <==> d.status == AssociationDecisionStatus::Strong)
            &&& (d.association_phase == AssociationPhase::Residual <==> d.status == AssociationDecisionStatus::Inferred)
        },
        forall|i: int, j: int| 0 <= i < j < observations@.len()
            ==> (#[trigger] final(decisions)@[old(decisions)@.len() + i]).track_id != (#[trigger] final(decisions)@[old(decisions)@.len() + j]).track_id,
        forall|t: int| old(tracks)@.len() <= t < final(tracks)@.len()
            ==> #[trigger] decided_track(final(decisions)@, old(decisions)@.len() as int, observations@.len() as int, t),
        forall|j: int, t: int| #[trigger] sole_family_track(observations@, old(tracks)@, j, t) ==> {
            let d = final(decisions)@[old(decisions)@.len() + j];
            &&& d.track_id == t
            &&& d.status == AssociationDecisionStatus::Strong
            &&& d.score == 100
            &&& d.margin == 100
            &&& d.association_phase == AssociationPhase::Family
        },
{
    let ghost tracks0 = tracks@;
    let ghost decisions0 = decisions@;
    let n = observations.len();
    if n == 0 {
        assert(decisions@.take(decisions@.len() as int) =~= decisions@);
        return;
    }
    let frame = observations[0].frame_index;
    let existing = tracks.len();
    let mut assigned: Vec<Option<usize>> = Vec::new();
    let mut strong: Vec<bool> = Vec::new();
    let mut k: usize = 0;
    while k < n
        invariant
            k <= n,
            assigned@.len() == k,
            strong@.len() == k,
            forall|a: int| 0 <= a < k ==> (#[trigger] assigned@[a]) is None && !strong@[a],
        decreases n - k,
    {
        assigned.push(None);
        strong.push(false);
        k = k + 1;
    }
    let mut used: Vec<bool> = Vec::new();
    let mut t: usize = 0;
    while t < existing
        invariant
            existing == tracks@.len(),
            t <= existing,
            used@.len() == t,
            forall|u: int| 0 <= u < t ==> !(#[trigger] used@[u]),
        decreases existing - t,
    {
        used.push(false);
        t = t + 1;
    }
    // Unique name family among the free tracks.
    let mut k: usize = 0;
    while k < n
        invariant
            n == observations@.len(),
            existing == tracks@.len(),
            tracks@ == tracks0,
            k <= n,
            assigned@.len() == n,
            strong@.len() == n,
            used@.len() == existing,
            forall|a: int| k <= a < n ==> (#[trigger] assigned@[a]) is None,
            forall|a: int| 0 <= a < n && (#[trigger] assigned@[a]) is Some ==> assigned@[a]->0 < existing && used@[assigned@[a]->0 as int] && strong@[a],
            forall|a: int| 0 <= a < n && (#[trigger] strong@[a]) ==> assigned@[a] is Some,
            forall|a: int, b: int| 0 <= a < n && 0 <= b < n && a != b && (#[trigger] assigned@[a]) is Some && (#[trigger] assigned@[b]) is Some
                ==> assigned@[a] != assigned@[b],
            forall|u: int| 0 <= u < existing && #[trigger] used@[u] ==> exists|a: int| 0 <= a < k && #[trigger] assigned@[a] == Some(u as usize)
                && !observations@[a].generic_name && observations@[a].name_key@ == tracks@[u].name_key@,
            forall|j: int, u: int| 0 <= j < k && #[trigger] sole_family_track(observations@, tracks0, j, u) ==> assigned@[j] == Some(u as usize),
        decreases n - k,
    {
        let ghost used_before = used@;
        let ghost assigned_before = assigned@;
        let ghost strong_before = strong@;
        if !observations[k].generic_name {
            let mut count: usize = 0;
            let mut found: usize = 0;
            let ghost mut first: int = 0;
            let mut u: usize = 0;
            while u < existing
                invariant
                    existing == tracks@.len(),
                    used@.len() == existing,
                    u <= existing,
                    count <= u,
                    k < observations@.len(),
                    count > 0 ==> found < u && !used@[found as int] && tracks@[found as int].name_key@ == observations@[k as int].name_key@,
                    count > 1 ==> 0 <= first < found && !used@[first] && tracks@[first].name_key@ == observations@[k as int].name_key@,
                    count == 0 ==> forall|w: int| 0 <= w < u ==> used@[w] || (#[trigger] tracks@[w]).name_key@ != observations@[k as int].name_key@,
                    count == 1 ==> forall|w: int| 0 <= w < u && w != found ==> used@[w] || (#[trigger] tracks@[w]).name_key@ != observations@[k as int].name_key@,
                decreases existing - u,
            {
                if !used[u] && tracks[u].name_key == observations[k].name_key {
                    proof {
                        if count == 1 {
                            first = found as int;
                        }
                    }
                    count = count + 1;
                    found = u;
                }
                u = u + 1;
            }
            proof {
                assert forall|w: int| #[trigger] sole_family_track(observations@, tracks0, k as int, w) implies count == 1 && found == w by {
                    if used_before[w] {
                        let a = choose|a: int| 0 <= a < k && #[trigger] assigned_before[a] == Some(w as usize)
                            && !observations@[a].generic_name && observations@[a].name_key@ == tracks@[w].name_key@;
                        assert(observations@[a].generic_name || observations@[a].name_key@ != observations@[k as int].name_key@);
                    }
                    assert(!used@[w]);
                    assert(count > 0);
                    if count == 1 && found != w {
                        assert(used@[w] || tracks@[w].name_key@ != observations@[k as int].name_key@);
                    }
                    if count > 1 {
                        assert(tracks@[found as int].name_key@ == observations@[k as int].name_key@);
                        assert(tracks@[first].name_key@ == observations@[k as int].name_key@);
                        assert(first != found as int);
                    }
                }
            }
            if count == 1 {
                proof {
                    assert forall|a: int| 0 <= a < n && a != k && (#[trigger] assigned@[a]) is Some implies assigned@[a] != Some(found) by {
                        assert(used@[assigned@[a]->0 as int]);
                    }
                }
                assigned.set(k, Some(found));
                strong.set(k, true);
                used.set(found, true);
            }
        }
        proof {
            assert forall|w: int| 0 <= w < existing && #[trigger] used@[w] implies exists|a: int| 0 <= a < k + 1 && #[trigger] assigned@[a] == Some(w as usize)
                && !observations@[a].generic_name && observations@[a].name_key@ == tracks@[w].name_key@ by {
                if used_before[w] {
                    let a = choose|a: int| 0 <= a < k && #[trigger] assigned_before[a] == Some(w as usize)
                        && !observations@[a].generic_name && observations@[a].name_key@ == tracks@[w].name_key@;
                    assert(assigned@[a] == assigned_before[a]);
                } else {
                    assert(assigned@[k as int] == Some(w as usize));
                }
            }
            assert forall|j: int, w: int| 0 <= j < k + 1 && #[trigger] sole_family_track(observations@, tracks0, j, w) implies assigned@[j] == Some(w as usize) by {
                if j < k {
                    assert(assigned@[j] == assigned_before[j]);
                }
            }
        }
        k = k + 1;
    }

    // Unique exact pixels among the free tracks.
    let mut k: usize = 0;
    while k < n
        invariant
            n == observations@.len(),
            existing == tracks@.len(),
            tracks@ == tracks0,
            k <= n,
            assigned@.len() == n,
            strong@.len() == n,
            used@.len() == existing,
            forall|a: int| 0 <= a < n && (#[trigger] assigned@[a]) is Some ==> assigned@[a]->0 < existing && used@[assigned@[a]->0 as int] && strong@[a],
            forall|a: int| 0 <= a < n && (#[trigger] strong@[a]) ==> assigned@[a] is Some,
            forall|a: int, b: int| 0 <= a < n && 0 <= b < n && a != b && (#[trigger] assigned@[a]) is Some && (#[trigger] assigned@[b]) is Some
                ==> assigned@[a] != assigned@[b],
            forall|j: int, u: int| #[trigger] sole_family_track(observations@, tracks0, j, u) ==> assigned@[j] == Some(u as usize),
        decreases n - k,
    {
        let ghost assigned_before = assigned@;
        if assigned[k].is_none() {
            let mut count: usize = 0;
            let mut found: usize = 0;
            let mut u: usize = 0;
            while u < existing
                invariant
                    existing == tracks@.len(),
                    used@.len() == existing,
                    u <= existing,
                    count <= u,
                    count > 0 ==> found < u && !used@[found as int],
                    k < n,
                    n == observations@.len(),
                decreases existing - u,
            {
                if !used[u] && holds_same_pixels(&observations[k], &tracks[u]) {
                    count = count + 1;
                    found = u;
                }
                u = u + 1;
            }
            if count == 1 {
                proof {
                    assert forall|a: int| 0 <= a < n && a != k && (#[trigger] assigned@[a]) is Some implies assigned@[a] != Some(found) by {
                        assert(used@[assigned@[a]->0 as int]);
                    }
                }
                assigned.set(k, Some(found));
                strong.set(k, true);
                used.set(found, true);
            }
        }
        proof {
            assert forall|j: int, w: int| #[trigger] sole_family_track(observations@, tracks0, j, w) implies assigned@[j] == Some(w as usize) by {
                assert(assigned_before[j] == Some(w as usize));
            }
        }
        k = k + 1;
    }
    // The residual matching.
    let mut residual_observations: Vec<usize> = Vec::new();
    let mut k: usize = 0;
    while k < n
        invariant
            k <= n,
            assigned@.len() == n,
            forall|e: int| 0 <= e < residual_observations@.len() ==> (#[trigger] residual_observations@[e]) < k
                && assigned@[residual_observations@[e] as int] is None,
        decreases n - k,
    {
        if assigned[k].is_none() {
            residual_observations.push(k);
        }
        k = k + 1;
    }
    let mut residual_tracks: Vec<usize> = Vec::new();
    let mut u: usize = 0;
    while u < existing
        invariant
            existing == tracks@.len(),
            used@.len() == existing,
            u <= existing,
            forall|e: int| 0 <= e < residual_tracks@.len() ==> (#[trigger] residual_tracks@[e]) < u,
            tracks_wf(tracks@, frame_count),
            frame < frame_count,
        decreases existing - u,
    {
        if !used[u] && tracks[u].cels[frame].is_none() {
            residual_tracks.push(u);
        }
        u = u + 1;
    }
    let mut candidate_map: Vec<Vec<(usize, u16)>> = Vec::new();
    let mut k: usize = 0;
    while k < n
        invariant
            k <= n,
            candidate_map@.len() == k,
            forall|a: int| 0 <= a < k ==> (#[trigger] candidate_map@[a])@.len() == 0,
        decreases n - k,
    {
        candidate_map.push(Vec::new());
        k = k + 1;
    }
    let mut i: usize = 0;
    while i < residual_observations.len()
        invariant
            n == observations@.len(),
            existing == tracks@.len(),
            i <= residual_observations@.len(),
            assigned@.len() == n,
            candidate_map@.len() == n,
            forall|e: int| 0 <= e < residual_observations@.len() ==> (#[trigger] residual_observations@[e]) < n
                && assigned@[residual_observations@[e] as int] is None,
            forall|e: int| 0 <= e < residual_tracks@.len() ==> (#[trigger] residual_tracks@[e]) < existing,
            forall|a: int, e: int| 0 <= a < n && 0 <= e < candidate_map@[a]@.len() ==> (#[trigger] candidate_map@[a]@[e]).1 <= 100,
            forall|a: int| 0 <= a < n && (#[trigger] assigned@[a]) is Some ==> candidate_map@[a]@.len() == 0,
        decreases residual_observations@.len() - i,
    {
        let k = residual_observations[i];
        let mut list: Vec<(usize, u16)> = Vec::new();
        let mut r: usize = 0;
        while r < residual_tracks.len()
            invariant
                existing == tracks@.len(),
                k < n,
                n == observations@.len(),
                r <= residual_tracks@.len(),
                forall|e: int| 0 <= e < residual_tracks@.len() ==> (#[trigger] residual_tracks@[e]) < existing,
                forall|e: int| 0 <= e < list@.len() ==> (#[trigger] list@[e]).1 <= 100,
            decreases residual_tracks@.len() - r,
        {
            let track_id = residual_tracks[r];
            let score = compact_candidate_score(&observations[k], &tracks[track_id], observations);
            if score >= 40 {
                list.push((track_id, score));
            }
            r = r + 1;
        }
        proof {
            lemma_sorted_bounded(list@);
        }
        let sorted = sort_candidates(list);
        let ghost before = candidate_map@;
        candidate_map.set(k, sorted);
        proof {
            assert forall|a: int| 0 <= a < n && (#[trigger] assigned@[a]) is Some implies candidate_map@[a]@.len() == 0 by {
                if a != k {
                    assert(candidate_map@[a] == before[a]);
                }
            }
        }
        i = i + 1;
    }
    let unique_residual = residual_observations.len() == 1 && residual_tracks.len() == 1;
    let solutions: Vec<Vec<(usize, usize)>> = if unique_residual && candidate_map[residual_observations[0]].len() > 0 {
        let mut only: Vec<(usize, usize)> = Vec::new();
        only.push((residual_observations[0], residual_tracks[0]));
        let mut single: Vec<Vec<(usize, usize)>> = Vec::new();
        single.push(only);
        single
    } else {
        find_unique_matchings(&residual_observations, &candidate_map, 2)
    };
    if solutions.len() == 1 {
        let chosen = &solutions[0];
        let mut q: usize = 0;
        while q < chosen.len()
            invariant
                n == observations@.len(),
                existing == tracks@.len(),
                q <= chosen@.len(),
                assigned@.len() == n,
                strong@.len() == n,
                used@.len() == existing,
                candidate_map@.len() == n,
                forall|a: int, e: int| 0 <= a < n && 0 <= e < candidate_map@[a]@.len() ==> (#[trigger] candidate_map@[a]@[e]).1 <= 100,
                forall|a: int| 0 <= a < n && (#[trigger] assigned@[a]) is Some ==> assigned@[a]->0 < existing && used@[assigned@[a]->0 as int],
                forall|a: int, b: int| 0 <= a < n && 0 <= b < n && a != b && (#[trigger] assigned@[a]) is Some && (#[trigger] assigned@[b]) is Some
                    ==> assigned@[a] != assigned@[b],
                forall|j: int, u: int| #[trigger] sole_family_track(observations@, tracks0, j, u) ==> assigned@[j] == Some(u as usize) && strong@[j]
                    && candidate_map@[j]@.len() == 0,
                forall|a: int| 0 <= a < n && (#[trigger] strong@[a]) ==> assigned@[a] is Some,
            decreases chosen@.len() - q,
        {
            let (observation_index, track_id) = chosen[q];
            if observation_index < n && track_id < existing && assigned[observation_index].is_none() && !used[track_id] {
                let (best, second) = listed_scores(&candidate_map[observation_index], track_id);
                let safe = match best {
                    Some(score) => score >= 75 && (if score >= second { score - second } else { 0 }) >= 15,
                    None => false,
                };
                if unique_residual || safe {
                    proof {
                        assert forall|a: int| 0 <= a < n && a != observation_index && (#[trigger] assigned@[a]) is Some implies assigned@[a] != Some(track_id) by {
                            assert(used@[assigned@[a]->0 as int]);
                        }
                    }
                    assigned.set(observation_index, Some(track_id));
                    used.set(track_id, true);
                }
            }
            q = q + 1;
        }
    }

    // One decision per observation, in order, and its cel.
    let ghost assigned_final = assigned@;
    let ghost strong_final = strong@;
    let ghost cmap_final = candidate_map@;
    let d0 = decisions.len();
    let mut k: usize = 0;
    while k < n
        invariant
            n == observations@.len(),
            n > 0,
            frame == observations@[0].frame_index,
            frame < frame_count,
            frame <= u32::MAX,
            forall|a: int| 0 <= a < n ==> (#[trigger] observations@[a]).frame_index == frame,
            existing == tracks0.len(),
            d0 == decisions0.len(),
            k <= n,
            assigned@ == assigned_final,
            strong@ == strong_final,
            candidate_map@ == cmap_final,
            assigned_final.len() == n,
            strong_final.len() == n,
            cmap_final.len() == n,
            forall|a: int, e: int| 0 <= a < n && 0 <= e < cmap_final[a]@.len() ==> (#[trigger] cmap_final[a]@[e]).1 <= 100,
            forall|a: int| 0 <= a < n && (#[trigger] assigned_final[a]) is Some ==> assigned_final[a]->0 < existing,
            forall|a: int, b: int| 0 <= a < n && 0 <= b < n && a != b && (#[trigger] assigned_final[a]) is Some && (#[trigger] assigned_final[b]) is Some
                ==> assigned_final[a] != assigned_final[b],
            forall|a: int| 0 <= a < n && (#[trigger] strong_final[a]) ==> assigned_final[a] is Some,
            forall|j: int, u: int| #[trigger] sole_family_track(observations@, tracks0, j, u) ==> assigned_final[j] == Some(u as usize) && strong_final[j]
                && cmap_final[j]@.len() == 0,
            tracks_wf(tracks@, frame_count),
            tracks@.len() >= existing,
            decisions@.len() == d0 + k,
            decisions@.take(d0 as int) == decisions0,
            forall|t: int, g: int| 0 <= t < tracks@.len() && 0 <= g < frame_count && g != frame
                && (t >= existing || (#[trigger] tracks@[t].cels@[g]) != tracks0[t].cels@[g])
                ==> t >= existing && tracks@[t].cels@[g] is None,
            forall|t: int| 0 <= t < existing && (#[trigger] tracks@[t].cels@[frame as int]) is Some
                ==> exists|i: int| 0 <= i < k && #[trigger] assigned_final[i] == Some(t as usize),
            forall|t: int| existing <= t < tracks@.len() ==> #[trigger] decided_track(decisions@, d0 as int, k as int, t),
            forall|i: int| 0 <= i < k ==> {
                let d = #[trigger] decisions@[d0 + i];
                &&& d.source_layer_id == observations@[i].source_layer_id
                &&& d.frame_index == observations@[i].frame_index
                &&& d.track_id < tracks@.len()
                &&& tracks@[d.track_id as int].cels@[frame as int] == Some(cel_of(observations@[i]))
                &&& d.margin <= d.score <= 100
                &&& (d.association_phase == AssociationPhase::NewTrack <==> d.track_id >= existing)
                &&& (d.association_phase == AssociationPhase::NewTrack ==> d.status == AssociationDecisionStatus::NewTrack
                    || d.status == AssociationDecisionStatus::Ambiguous)
                &&& (d.association_phase == AssociationPhase::Family <==> d.status == AssociationDecisionStatus::Strong)
                &&& (d.association_phase == AssociationPhase::Residual <==> d.status == AssociationDecisionStatus::Inferred)
                &&& (assigned_final[i] matches Some(t) ==> d.track_id == t)
                &&& (strong_final[i] && cmap_final[i]@.len() == 0 ==> d.score == 100 && d.margin == 100
                    && d.status == AssociationDecisionStatus::Strong && d.association_phase == AssociationPhase::Family)
            },
            forall|i: int, j: int| 0 <= i < j < k ==> (#[trigger] decisions@[d0 + i]).track_id != (#[trigger] decisions@[d0 + j]).track_id,
        decreases n - k,
    {
        let observation = &observations[k];
        let candidates = &candidate_map[k];
        let ghost tracks_before = tracks@;
        let ghost decisions_before = decisions@;
        let track_id: usize;
        match assigned[k] {
            Some(target) => {
                let (best, second) = listed_scores(candidates, target);
                let score: u16 = match best {
                    Some(v) => v,
                    None => 100,
                };
                let margin: u16 = if score >= second { score - second } else { 0 };
                let status = if strong[k] { AssociationDecisionStatus::Strong } else { AssociationDecisionStatus::Inferred };
                let evidence = compact_evidence_for(observation, &tracks[target], score);
                let alternatives = candidate_names(candidates, tracks, target);
                let mut made = decision(observation, target, status, score, margin, evidence, alternatives);
                made.association_phase = if strong[k] { AssociationPhase::Family } else { AssociationPhase::Residual };
                decisions.push(made);
                track_id = target;
            },
            None => {
                let score: u16 = if candidates.len() > 0 { candidates[0].1 } else { 0 };
                let margin: u16 = if candidates.len() > 1 {
                    if candidates[0].1 >= candidates[1].1 { candidates[0].1 - candidates[1].1 } else { 0 }
                } else {
                    score
                };
                let status = if candidates.len() > 0 && (solutions.len() > 1 || score < 75 || margin < 15) {
                    AssociationDecisionStatus::Ambiguous
                } else {
                    AssociationDecisionStatus::NewTrack
                };
                track_id = tracks.len();
                tracks.push(new_track(track_id, observation, frame_count));
                let mut evidence: Vec<String> = Vec::new();
                if status == AssociationDecisionStatus::Ambiguous {
                    evidence.push("candidate margin below safe threshold".to_owned());
                } else {
                    evidence.push("no safe existing track".to_owned());
                }
                let alternatives = candidate_names(candidates, tracks, track_id);
                let mut made = decision(observation, track_id, status, score, margin, evidence, alternatives);
                made.association_phase = AssociationPhase::NewTrack;
                decisions.push(made);
            },
        }
        let ghost before_record = tracks@;
        record_assignment(
            &mut tracks[track_id],
            observation,
            PlannedCel { source_layer_id: observation.source_layer_id, source_frame_index: observation.frame_index as u32, z_index: 0 },
        );
        proof {
            assert(decisions@.take(d0 as int) =~= decisions_before.take(d0 as int));
            assert forall|i: int| 0 <= i < k implies #[trigger] decisions@[d0 + i] == decisions_before[d0 + i] by {}
            assert(decisions@[d0 + k as int].track_id == track_id);
            assert forall|t: int| existing <= t < tracks@.len() implies #[trigger] decided_track(decisions@, d0 as int, k + 1, t) by {
                if t < tracks_before.len() {
                    assert(decided_track(decisions_before, d0 as int, k as int, t));
                    let i = choose|i: int| 0 <= i < k && #[trigger] decisions_before[d0 + i].track_id == t;
                    assert(decisions@[d0 + i] == decisions_before[d0 + i]);
                    assert(decisions@[d0 + i].track_id == t);
                } else {
                    assert(decisions@[d0 + k as int].track_id == t);
                }
            }
            assert forall|i: int| 0 <= i < k implies (#[trigger] decisions@[d0 + i]).track_id != track_id by {
                if assigned_final[k as int] is Some {
                    if assigned_final[i] is Some {
                        assert(assigned_final[i] != assigned_final[k as int]);
                    }
                }
            }
        }
        k = k + 1;
    }
    proof {
        assert forall|j: int, u: int| #[trigger] sole_family_track(observations@, tracks0, j, u) implies {
            let d = decisions@[decisions0.len() + j];
            &&& d.track_id == u
            &&& d.status == AssociationDecisionStatus::Strong
            &&& d.score == 100
            &&& d.margin == 100
            &&& d.association_phase == AssociationPhase::Family
        } by {
            assert(decisions@[d0 + j].track_id == u);
        }
    }
}

} // verus!
