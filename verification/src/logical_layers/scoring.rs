//! How well an observation fits an existing track: the candidate score, the evidence
//! behind an assignment, and the reasons an assignment stayed unsafe.
use vstd::prelude::*;

use super::{
    exclusion_evidence, exclusion_from, geometry_score, geometry_similarity, group_score,
    group_similarity, name_match_score, name_score, AssociationDecisionStatus,
    AssociationExclusionKind, FrameContainerInfo, GroupSegment, Observation, ObservationSummary,
    TrackBuilder,
};

verus! {

/// The source orders of a track's observations, as the signed values they are ranked by.
pub open spec fn order_values(observations: Seq<ObservationSummary>) -> Seq<i32> {
    observations.map_values(|o: ObservationSummary| o.source_order as i32)
}

/// Ascending order of signed values.
pub open spec fn ascending() -> spec_fn(i32, i32) -> bool {
    |a: i32, b: i32| a <= b
}

/// The median source order of a track: the middle value, upper middle for an even count,
/// of its sorted source orders; none for a track without observations.
pub open spec fn median_of(observations: Seq<ObservationSummary>) -> Option<i32> {
    if observations.len() == 0 {
        None
    } else {
        Some(order_values(observations).sort_by(ascending())[(observations.len() / 2) as int])
    }
}

proof fn lemma_ascending_total()
    ensures
        vstd::relations::total_ordering(ascending()),
{
}

pub(crate) fn sort_orders(values: Vec<i32>) -> (sorted: Vec<i32>)
    ensures
        sorted@ == values@.sort_by(ascending()),
        sorted@.len() == values@.len(),
{
    proof {
        lemma_ascending_total();
    }
    let ghost leq = ascending();
    let mut sorted: Vec<i32> = Vec::new();
    assert(values@.take(0) =~= sorted@);
    let mut i: usize = 0;
    while i < values.len()
        invariant
            leq == ascending(),
            vstd::relations::total_ordering(leq),
            i <= values@.len(),
            sorted@.len() == i,
            vstd::relations::sorted_by(sorted@, leq),
            sorted@.to_multiset() == values@.take(i as int).to_multiset(),
        decreases values@.len() - i,
    {
        let x = values[i];
        let mut p: usize = 0;
        while p < sorted.len() && sorted[p] <= x
            invariant
                leq == ascending(),
                p <= sorted@.len(),
                forall|k: int| 0 <= k < p ==> #[trigger] leq(sorted@[k], x),
            decreases sorted@.len() - p,
        {
            p = p + 1;
        }
        let ghost before = sorted@;
        proof {
            if p < before.len() {
                assert(leq(x, before[p as int]));
                assert forall|k: int| p <= k < before.len() implies #[trigger] leq(x, before[k]) by {
                    if k > p {
                        assert(leq(before[p as int], before[k]));
                    }
                }
            }
        }
        sorted.insert(p, x);
        proof {
            vstd::seq_lib::to_multiset_insert(before, p as int, x);
            assert(values@.take(i as int + 1) == values@.take(i as int).push(x));
            vstd::seq_lib::to_multiset_build(values@.take(i as int), x);
            assert forall|a: int, c: int| 0 <= a < c < sorted@.len() implies #[trigger] leq(sorted@[a], sorted@[c]) by {
                if a < p && c < p {
                    assert(leq(before[a], before[c]));
                } else if a < p && c == p {
                } else if a < p && c > p {
                    assert(leq(before[a], before[c - 1]));
                } else if a == p {
                } else {
                    assert(leq(before[a - 1], before[c - 1]));
                }
            }
        }
        i = i + 1;
    }
    proof {
        assert(values@.take(values@.len() as int) == values@);
        values@.lemma_sort_by_ensures(leq);
        vstd::seq_lib::lemma_sorted_unique(sorted@, values@.sort_by(leq), leq);
    }
    sorted
}

/// The median source order of the observations assigned to a track.
pub fn median_order(track: &TrackBuilder) -> (median: Option<i32>)
    ensures
        median == median_of(track.observations@),
{
    let mut values: Vec<i32> = Vec::new();
    let mut i: usize = 0;
    while i < track.observations.len()
        invariant
            i <= track.observations@.len(),
            values@ == order_values(track.observations@.take(i as int)),
        decreases track.observations@.len() - i,
    {
        values.push(track.observations[i].source_order as i32);
        assert(track.observations@.take(i as int + 1) == track.observations@.take(i as int).push(track.observations@[i as int]));
        i = i + 1;
    }
    assert(track.observations@.take(i as int) == track.observations@);
    let sorted = sort_orders(values);
    if sorted.len() == 0 {
        None
    } else {
        Some(sorted[sorted.len() / 2])
    }
}

/// The best group-path score of a path against any of a track's paths; zero for none.
pub open spec fn best_group_score(path: Seq<GroupSegment>, paths: Seq<Vec<GroupSegment>>) -> int
    decreases paths.len(),
{
    if paths.len() == 0 {
        0
    } else {
        let last = group_score(path, paths.last()@) as int;
        let rest = best_group_score(path, paths.drop_last());
        if last > rest { last } else { rest }
    }
}

/// The best geometry score of an observation against any earlier observation of a track;
/// zero for none.
pub open spec fn best_geometry_score(observation: Observation, previous: Seq<ObservationSummary>) -> int
    decreases previous.len(),
{
    if previous.len() == 0 {
        0
    } else {
        let last = geometry_score(observation, previous.last());
        let rest = best_geometry_score(observation, previous.drop_last());
        if last > rest { last } else { rest }
    }
}

/// Whether an earlier observation has the same size and pixels as an observation.
pub open spec fn same_pixels(observation: Observation, previous: ObservationSummary) -> bool {
    previous.width == observation.width && previous.height == observation.height && previous.pixels@ == observation.pixels@
}

/// Whether a track already holds the exact pixels of an observation.
pub open spec fn has_same_pixels(observation: Observation, previous: Seq<ObservationSummary>) -> bool {
    exists|i: int| 0 <= i < previous.len() && #[trigger] same_pixels(observation, previous[i])
}

/// The position of the first observation of a frame with a source layer ID, searching
/// from `k`; zero when there is none.
pub open spec fn rank_from(frame: Seq<Observation>, id: u32, k: int) -> int
    decreases frame.len() - k,
{
    if k < 0 || k >= frame.len() {
        0
    } else if frame[k].source_layer_id == id {
        k
    } else {
        rank_from(frame, id, k + 1)
    }
}

/// The order score: nothing when the observation and the track are structurally
/// exclusive, else 20 less four points for each step of distance from the track's median
/// order, at most five steps.
pub open spec fn order_score(kind: AssociationExclusionKind, rank: i32, median: i32) -> int {
    if kind == AssociationExclusionKind::StructuralMutualExclusion {
        0
    } else {
        let d = if rank >= median { rank - median } else { median - rank };
        20 - (if d > 5 { 5 } else { d }) * 4
    }
}

/// The points an exclusion relation adds to a candidate.
pub open spec fn exclusion_points(kind: AssociationExclusionKind) -> int {
    match kind {
        AssociationExclusionKind::StructuralMutualExclusion => 30,
        AssociationExclusionKind::ObservedDisjoint => 5,
        _ => 0,
    }
}

/// The points a candidate can reach: 70 when either name is generic, 100 when neither
/// carries a copy suffix, 85 otherwise.
pub open spec fn available_weight(observation: Observation, track: TrackBuilder) -> int {
    if observation.generic_name || track.generic_name {
        70
    } else if observation.copy_suffixes@.len() == 0 && track.copy_suffixes@.len() == 0 {
        100
    } else {
        85
    }
}

/// The candidate score of an observation against a track, from 0 to 100: the name, group,
/// order, geometry, pixel and exclusion evidence, scaled by the points available.
pub open spec fn candidate_score_of(observation: Observation, track: TrackBuilder, frame: Seq<Observation>, selectors: Seq<FrameContainerInfo>) -> int {
    let kind = exclusion_from(observation, track.observations@, selectors, 0);
    let rank = rank_from(frame, observation.source_layer_id, 0) as i32;
    let median = match median_of(track.observations@) {
        Some(m) => m,
        None => rank,
    };
    let total = name_score(observation, track) as int
        + best_group_score(observation.group_path@, track.group_paths@)
        + order_score(kind, rank, median)
        + best_geometry_score(observation, track.observations@)
        + (if has_same_pixels(observation, track.observations@) { 10int } else { 0int })
        + exclusion_points(kind);
    let scaled = total * 100 / available_weight(observation, track);
    if scaled > 100 { 100 } else { scaled }
}

pub(crate) fn best_group_similarity(path: &Vec<GroupSegment>, paths: &Vec<Vec<GroupSegment>>) -> (best: u16)
    ensures
        best == best_group_score(path@, paths@),
        best <= 20,
{
    let mut best: u16 = 0;
    let mut i: usize = 0;
    while i < paths.len()
        invariant
            i <= paths@.len(),
            best == best_group_score(path@, paths@.take(i as int)),
            best <= 20,
        decreases paths@.len() - i,
    {
        let score = group_similarity(path, &paths[i]);
        assert(paths@.take(i as int + 1).drop_last() == paths@.take(i as int));
        if score > best {
            best = score;
        }
        i = i + 1;
    }
    assert(paths@.take(i as int) == paths@);
    best
}

pub(crate) fn best_geometry_similarity(observation: &Observation, previous: &Vec<ObservationSummary>) -> (best: u16)
    ensures
        best == best_geometry_score(*observation, previous@),
        best <= 20,
{
    let mut best: u16 = 0;
    let mut i: usize = 0;
    while i < previous.len()
        invariant
            i <= previous@.len(),
            best == best_geometry_score(*observation, previous@.take(i as int)),
            best <= 20,
        decreases previous@.len() - i,
    {
        let score = geometry_similarity(observation, &previous[i]);
        assert(previous@.take(i as int + 1).drop_last() == previous@.take(i as int));
        if score > best {
            best = score;
        }
        i = i + 1;
    }
    assert(previous@.take(i as int) == previous@);
    best
}

fn bytes_equal(left: &Vec<u8>, right: &Vec<u8>) -> (equal: bool)
    ensures
        equal == (left@ == right@),
{
    if left.len() != right.len() {
        return false;
    }
    let mut i: usize = 0;
    while i < left.len()
        invariant
            left@.len() == right@.len(),
            i <= left@.len(),
            forall|j: int| 0 <= j < i ==> left@[j] == right@[j],
        decreases left@.len() - i,
    {
        if left[i] != right[i] {
            return false;
        }
        i = i + 1;
    }
    assert(left@ =~= right@);
    true
}

/// Whether a track already holds the exact pixels of an observation.
pub fn holds_same_pixels(observation: &Observation, track: &TrackBuilder) -> (found: bool)
    ensures
        found == has_same_pixels(*observation, track.observations@),
{
    let mut i: usize = 0;
    while i < track.observations.len()
        invariant
            i <= track.observations@.len(),
            forall|k: int| 0 <= k < i ==> !#[trigger] same_pixels(*observation, track.observations@[k]),
        decreases track.observations@.len() - i,
    {
        let previous = &track.observations[i];
        if previous.width == observation.width && previous.height == observation.height && bytes_equal(&previous.pixels, &observation.pixels) {
            assert(same_pixels(*observation, track.observations@[i as int]));
            return true;
        }
        i = i + 1;
    }
    false
}

pub(crate) fn frame_rank(frame: &Vec<Observation>, id: u32) -> (rank: usize)
    ensures
        rank == rank_from(frame@, id, 0),
{
    let mut k: usize = 0;
    while k < frame.len()
        invariant
            k <= frame@.len(),
            rank_from(frame@, id, 0) == rank_from(frame@, id, k as int),
        decreases frame@.len() - k,
    {
        if frame[k].source_layer_id == id {
            return k;
        }
        k = k + 1;
    }
    0
}

/// Scores an observation against an existing track, from 0 to 100.
pub fn candidate_score(
    observation: &Observation,
    track: &TrackBuilder,
    frame_observations: &Vec<Observation>,
    selectors: &Vec<FrameContainerInfo>,
) -> (score: u16)
    ensures
        score == candidate_score_of(*observation, *track, frame_observations@, selectors@),
{
    let kind = exclusion_evidence(observation, track, selectors);
    let name = name_match_score(observation, track);
    let group = best_group_similarity(&observation.group_path, &track.group_paths);
    let rank = frame_rank(frame_observations, observation.source_layer_id) as i32;
    let median = match median_order(track) {
        Some(m) => m,
        None => rank,
    };
    let order: u16 = if kind == AssociationExclusionKind::StructuralMutualExclusion {
        0
    } else {
        let distance: i64 = if rank >= median { rank as i64 - median as i64 } else { median as i64 - rank as i64 };
        let steps: u16 = if distance > 5 { 5 } else { distance as u16 };
        20 - steps * 4
    };
    let geometry = best_geometry_similarity(observation, &track.observations);
    let pixels: u16 = if holds_same_pixels(observation, track) { 10 } else { 0 };
    let exclusion: u16 = match kind {
        AssociationExclusionKind::StructuralMutualExclusion => 30,
        AssociationExclusionKind::ObservedDisjoint => 5,
        _ => 0,
    };
    let total: u32 = name as u32 + group as u32 + order as u32 + geometry as u32 + pixels as u32 + exclusion as u32;
    let weight: u32 = if observation.generic_name || track.generic_name {
        70
    } else if observation.copy_suffixes.len() == 0 && track.copy_suffixes.len() == 0 {
        100
    } else {
        85
    };
    let scaled = total * 100 / weight;
    if scaled > 100 { 100 } else { scaled as u16 }
}

/// The texts of a list of strings.
pub open spec fn texts(strings: Seq<String>) -> Seq<Seq<char>> {
    strings.map_values(|s: String| s@)
}

/// Parts joined by a separator, as `join` on a slice of strings does.
pub open spec fn joined(parts: Seq<Seq<char>>, separator: Seq<char>) -> Seq<char>
    decreases parts.len(),
{
    if parts.len() == 0 {
        Seq::empty()
    } else if parts.len() == 1 {
        parts[0]
    } else {
        joined(parts.drop_last(), separator) + separator + parts.last()
    }
}

/// The evidence text of a copy-name family match.
pub open spec fn copy_family_text(suffixes: Seq<String>) -> Seq<char> {
    "copy-name family ("@ + joined(texts(suffixes), " + "@) + ")"@
}

/// Formats the copy-name family evidence, the suffixes joined by ` + `.
fn copy_family_message(suffixes: &Vec<String>) -> (message: String)
    ensures
        message@ == copy_family_text(suffixes@),
{
    let mut message = "copy-name family (".to_owned();
    let joined_suffixes = super::diagnostics::format_copy_suffixes(suffixes);
    message.append(joined_suffixes.as_str());
    message.append(")");
    message
}

/// Whether one of a track's group paths equals the observation's.
pub open spec fn has_persistent_group(observation: Observation, track: TrackBuilder) -> bool {
    exists|i: int| 0 <= i < track.group_paths@.len() && group_score(observation.group_path@, (#[trigger] track.group_paths@[i])@) >= 20
}

/// The evidence recorded for an assignment, in order: the name, a persistent group path,
/// exact pixels, a score of at least 40, and the exclusion hint.
pub open spec fn evidence_list(observation: Observation, track: TrackBuilder, score: u16, kind: AssociationExclusionKind) -> Seq<Seq<char>> {
    let name_part: Seq<Seq<char>> = if !observation.generic_name && !track.generic_name && observation.normalized_name@ == track.normalized_name@ {
        seq!["normalized name"@]
    } else if name_score(observation, track) > 0 {
        seq![copy_family_text(observation.copy_suffixes@)]
    } else {
        Seq::empty()
    };
    let group_part: Seq<Seq<char>> = if has_persistent_group(observation, track) { seq!["persistent group path"@] } else { Seq::empty() };
    let pixel_part: Seq<Seq<char>> = if has_same_pixels(observation, track.observations@) { seq!["exact RGBA pixels"@] } else { Seq::empty() };
    let score_part: Seq<Seq<char>> = if score >= 40 { seq!["geometry/order context"@] } else { Seq::empty() };
    let exclusion_part: Seq<Seq<char>> = match kind {
        AssociationExclusionKind::ObservedDisjoint => seq!["observed frame-disjoint hint"@],
        AssociationExclusionKind::StructuralMutualExclusion => seq!["structural frame-container exclusion hint"@],
        _ => Seq::empty(),
    };
    name_part + group_part + pixel_part + score_part + exclusion_part
}

pub(crate) fn push_text(list: &mut Vec<String>, text: String)
    ensures
        texts(final(list)@) == texts(old(list)@).push(text@),
{
    let ghost before = list@;
    list.push(text);
    assert(texts(list@) =~= texts(before).push(text@));
}

pub(crate) fn persistent_group(observation: &Observation, track: &TrackBuilder) -> (found: bool)
    ensures
        found == has_persistent_group(*observation, *track),
{
    let mut i: usize = 0;
    while i < track.group_paths.len()
        invariant
            i <= track.group_paths@.len(),
            forall|k: int| 0 <= k < i ==> group_score(observation.group_path@, (#[trigger] track.group_paths@[k])@) < 20,
        decreases track.group_paths@.len() - i,
    {
        if group_similarity(&observation.group_path, &track.group_paths[i]) >= 20 {
            return true;
        }
        i = i + 1;
    }
    false
}

/// The evidence behind assigning an observation to a track with a given score.
pub fn evidence_for(
    observation: &Observation,
    track: &TrackBuilder,
    score: u16,
    selectors: &Vec<FrameContainerInfo>,
) -> (evidence: Vec<String>)
    ensures
        texts(evidence@) == evidence_list(*observation, *track, score, exclusion_from(*observation, track.observations@, selectors@, 0)),
{
    let mut evidence: Vec<String> = Vec::new();
    if !observation.generic_name && !track.generic_name && observation.normalized_name == track.normalized_name {
        push_text(&mut evidence, "normalized name".to_owned());
    } else if name_match_score(observation, track) > 0 {
        push_text(&mut evidence, copy_family_message(&observation.copy_suffixes));
    }
    let ghost name_part = texts(evidence@);
    if persistent_group(observation, track) {
        push_text(&mut evidence, "persistent group path".to_owned());
    }
    let ghost group_part = texts(evidence@);
    if holds_same_pixels(observation, track) {
        push_text(&mut evidence, "exact RGBA pixels".to_owned());
    }
    let ghost pixel_part = texts(evidence@);
    if score >= 40 {
        push_text(&mut evidence, "geometry/order context".to_owned());
    }
    let ghost score_part = texts(evidence@);
    let kind = exclusion_evidence(observation, track, selectors);
    match kind {
        AssociationExclusionKind::ObservedDisjoint => {
            push_text(&mut evidence, "observed frame-disjoint hint".to_owned());
        },
        AssociationExclusionKind::StructuralMutualExclusion => {
            push_text(&mut evidence, "structural frame-container exclusion hint".to_owned());
        },
        _ => {},
    }
    assert(texts(evidence@) =~= evidence_list(*observation, *track, score, kind));
    evidence
}

/// The names of the candidate tracks other than the selected one, in candidate order.
pub open spec fn other_names(candidates: Seq<(usize, u16)>, tracks: Seq<TrackBuilder>, selected: usize) -> Seq<Seq<char>>
    decreases candidates.len(),
{
    if candidates.len() == 0 {
        Seq::empty()
    } else {
        let rest = other_names(candidates.drop_last(), tracks, selected);
        let id = candidates.last().0;
        if id != selected && id < tracks.len() {
            rest.push(tracks[id as int].name@)
        } else {
            rest
        }
    }
}

/// Lists the names of the alternative candidate tracks of a decision.
pub fn candidate_names(candidates: &Vec<(usize, u16)>, tracks: &Vec<TrackBuilder>, selected: usize) -> (names: Vec<String>)
    ensures
        texts(names@) == other_names(candidates@, tracks@, selected),
{
    let mut names: Vec<String> = Vec::new();
    let mut i: usize = 0;
    while i < candidates.len()
        invariant
            i <= candidates@.len(),
            texts(names@) == other_names(candidates@.take(i as int), tracks@, selected),
        decreases candidates@.len() - i,
    {
        let id = candidates[i].0;
        assert(candidates@.take(i as int + 1).drop_last() == candidates@.take(i as int));
        if id != selected && id < tracks.len() {
            push_text(&mut names, tracks[id].name.clone());
        }
        i = i + 1;
    }
    assert(candidates@.take(i as int) == candidates@);
    names
}

/// The reason that counts the observations of a family in one frame.
pub open spec fn family_count_text(count: usize) -> Seq<char> {
    "same name family has "@ + crate::text::decimal(count as int) + " observations in this frame"@
}

#[verifier::external_body]
fn family_count_message(count: usize) -> (message: String)
    ensures
        message@ == family_count_text(count),
{
    format!("same name family has {count} observations in this frame")
}

/// The margin of the best candidate over the second, or the best score alone; zero
/// without candidates.
pub open spec fn candidate_margin(candidates: Seq<(usize, u16)>) -> int {
    if candidates.len() >= 2 {
        if candidates[0].1 >= candidates[1].1 { candidates[0].1 - candidates[1].1 } else { 0 }
    } else if candidates.len() == 1 {
        candidates[0].1 as int
    } else {
        0
    }
}

/// The fixed-text reasons an assignment was not made safely, in order: a matching tie,
/// several remaining candidates, and a best candidate below the safe score or margin.
pub open spec fn fixed_reasons(candidates: Seq<(usize, u16)>, status: AssociationDecisionStatus, matching_tie: bool) -> Seq<Seq<char>> {
    let tie_part: Seq<Seq<char>> = if matching_tie { seq!["family matching has multiple optimal assignments"@] } else { Seq::empty() };
    let many_part: Seq<Seq<char>> = if candidates.len() > 1 { seq!["multiple existing family candidates remain"@] } else { Seq::empty() };
    let unsafe_part: Seq<Seq<char>> = if status == AssociationDecisionStatus::Ambiguous && candidates.len() > 0
        && (candidates[0].1 < 75 || candidate_margin(candidates) < 15) {
        seq!["candidate score or margin is below the safe threshold"@]
    } else {
        Seq::empty()
    };
    tie_part + many_part + unsafe_part
}

fn fixed_rejection_reasons(candidates: &Vec<(usize, u16)>, status: AssociationDecisionStatus, matching_tie: bool) -> (reasons: Vec<String>)
    ensures
        texts(reasons@) == fixed_reasons(candidates@, status, matching_tie),
{
    let mut reasons: Vec<String> = Vec::new();
    if matching_tie {
        push_text(&mut reasons, "family matching has multiple optimal assignments".to_owned());
    }
    if candidates.len() > 1 {
        push_text(&mut reasons, "multiple existing family candidates remain".to_owned());
    }
    let margin: u16 = if candidates.len() >= 2 {
        if candidates[0].1 >= candidates[1].1 { candidates[0].1 - candidates[1].1 } else { 0 }
    } else if candidates.len() == 1 {
        candidates[0].1
    } else {
        0
    };
    if status == AssociationDecisionStatus::Ambiguous && candidates.len() > 0 && (candidates[0].1 < 75 || margin < 15) {
        push_text(&mut reasons, "candidate score or margin is below the safe threshold".to_owned());
    }
    assert(texts(reasons@) =~= fixed_reasons(candidates@, status, matching_tie));
    reasons
}

/// The reasons recorded against a decision: first, when the frame holds several
/// observations of the family, a reason that counts them; then the fixed-text reasons.
pub fn rejection_reasons(
    candidates: &Vec<(usize, u16)>,
    status: AssociationDecisionStatus,
    matching_tie: bool,
    same_frame_instance_count: usize,
) -> (reasons: Vec<String>)
    ensures
        same_frame_instance_count > 1 ==> reasons@.len() >= 1 && reasons@[0]@ == family_count_text(same_frame_instance_count)
            && texts(reasons@.skip(1)) == fixed_reasons(candidates@, status, matching_tie),
        same_frame_instance_count <= 1 ==> texts(reasons@) == fixed_reasons(candidates@, status, matching_tie),
{
    let mut fixed = fixed_rejection_reasons(candidates, status, matching_tie);
    if same_frame_instance_count > 1 {
        let mut reasons: Vec<String> = Vec::new();
        reasons.push(family_count_message(same_frame_instance_count));
        let ghost tail = fixed@;
        reasons.append(&mut fixed);
        assert(reasons@.skip(1) =~= tail);
        reasons
    } else {
        fixed
    }
}

} // verus!
