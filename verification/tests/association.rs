use psd2ase_core::logical_layers::association::{associate_frame, sort_candidates};
use psd2ase_core::logical_layers::matching::{find_best_family_matching, find_unique_matchings};
use psd2ase_core::logical_layers::{
    candidate_score, evidence_for, median_order, new_track, record_assignment, rejection_reasons,
    Observation, PlannedCel, TrackBuilder,
};
use psd2ase_core::{AssociationDecisionStatus, AssociationPhase};

fn observation(frame_index: usize, source_layer_id: u32, name: &str, x: i32, pixel: u8) -> Observation {
    Observation {
        frame_index,
        source_layer_id,
        source_path: format!("/{name}"),
        name: name.to_string(),
        normalized_name: name.to_lowercase(),
        name_key: name.to_lowercase(),
        generic_name: name.starts_with("Layer"),
        copy_suffixes: Vec::new(),
        suffix_limit_reached: false,
        frame_container_ids: Vec::new(),
        group_path: Vec::new(),
        source_order: 0,
        x,
        y: 0,
        width: 1,
        height: 1,
        pixels: vec![pixel, pixel, pixel, 255],
    }
}

fn track_from(observation: &Observation, frame_count: usize) -> TrackBuilder {
    let mut track = new_track(0, observation, frame_count);
    record_assignment(
        &mut track,
        observation,
        PlannedCel {
            source_layer_id: observation.source_layer_id,
            source_frame_index: observation.frame_index as u32,
            z_index: 0,
        },
    );
    track
}

#[test]
fn exact_unique_name_anchors_the_next_frame() {
    let first = observation(0, 1, "Hero", 0, 10);
    let mut tracks = vec![track_from(&first, 2)];
    let mut decisions = Vec::new();
    let next = vec![observation(1, 2, "Hero", 40, 20)];
    associate_frame(&next, &mut tracks, 2, &Vec::new(), &mut decisions, &Vec::new());
    assert_eq!(tracks.len(), 1);
    assert_eq!(decisions.len(), 1);
    assert_eq!(decisions[0].track_id, 0);
    assert_eq!(decisions[0].association_phase, AssociationPhase::Anchor);
    assert_eq!(decisions[0].status, AssociationDecisionStatus::Strong);
    assert_eq!(tracks[0].cels[1].map(|cel| cel.source_layer_id), Some(2));
}

#[test]
fn exact_pixels_follow_a_renamed_layer() {
    let first = observation(0, 1, "Hero", 0, 10);
    let mut tracks = vec![track_from(&first, 2)];
    let mut decisions = Vec::new();
    let next = vec![observation(1, 2, "Villain", 0, 10)];
    associate_frame(&next, &mut tracks, 2, &Vec::new(), &mut decisions, &Vec::new());
    assert_eq!(decisions[0].track_id, 0);
    assert_eq!(decisions[0].association_phase, AssociationPhase::ExactPixels);
    assert_eq!(decisions[0].status, AssociationDecisionStatus::Strong);
}

#[test]
fn unrelated_layer_opens_a_new_track() {
    let first = observation(0, 1, "Hero", 0, 10);
    let mut tracks = vec![track_from(&first, 2)];
    let mut decisions = Vec::new();
    let next = vec![
        observation(1, 2, "Hero", 0, 30),
        observation(1, 3, "Sky", 500, 90),
    ];
    associate_frame(&next, &mut tracks, 2, &Vec::new(), &mut decisions, &Vec::new());
    assert_eq!(tracks.len(), 2);
    assert_eq!(decisions.len(), 2);
    assert_eq!(decisions[0].track_id, 0);
    assert_eq!(decisions[1].track_id, 1);
    assert_eq!(decisions[1].association_phase, AssociationPhase::NewTrack);
    assert_eq!(tracks[1].cels[1].map(|cel| cel.source_layer_id), Some(3));
    assert_ne!(decisions[0].track_id, decisions[1].track_id);
}

#[test]
fn preassigned_observations_are_skipped() {
    let first = observation(0, 1, "Hero", 0, 10);
    let mut tracks = vec![track_from(&first, 2)];
    let next = observation(1, 2, "Hero", 0, 10);
    record_assignment(
        &mut tracks[0],
        &next,
        PlannedCel {
            source_layer_id: 2,
            source_frame_index: 1,
            z_index: 0,
        },
    );
    let mut decisions = Vec::new();
    associate_frame(&vec![next], &mut tracks, 2, &Vec::new(), &mut decisions, &vec![((1, 2), 0)]);
    assert!(decisions.is_empty());
    assert_eq!(tracks.len(), 1);
}

#[test]
fn unique_matchings_enumerates_one_to_one_assignments() {
    let candidates = vec![vec![(5, 90), (6, 80)], vec![(5, 70)]];
    let solutions = find_unique_matchings(&vec![0, 1], &candidates, 2);
    assert_eq!(solutions, vec![vec![(0, 6), (1, 5)]]);
}

#[test]
fn unique_matchings_stop_at_the_limit() {
    let candidates = vec![vec![(5, 90), (6, 80)], vec![(5, 70), (6, 60)]];
    let solutions = find_unique_matchings(&vec![0, 1], &candidates, 1);
    assert_eq!(solutions, vec![vec![(0, 5), (1, 6)]]);
}

#[test]
fn family_matching_reports_ties() {
    let candidates = vec![vec![(5, 90), (6, 80)], vec![(5, 70), (6, 60)]];
    let matching = find_best_family_matching(&vec![0, 1], &candidates);
    assert_eq!(matching.assignments, vec![(0, 5), (1, 6)]);
    assert_eq!(matching.tied_observations, vec![0, 1]);
}

#[test]
fn family_matching_prefers_the_higher_total() {
    let candidates = vec![vec![(5, 90), (6, 40)], vec![(5, 80), (6, 70)]];
    let matching = find_best_family_matching(&vec![0, 1], &candidates);
    assert_eq!(matching.assignments, vec![(0, 5), (1, 6)]);
    assert!(matching.tied_observations.is_empty());
}

#[test]
fn median_order_takes_the_upper_middle() {
    let mut track = track_from(&observation(0, 1, "Hero", 0, 10), 3);
    let mut second = observation(1, 2, "Hero", 0, 10);
    second.source_order = 3;
    record_assignment(&mut track, &second, PlannedCel { source_layer_id: 2, source_frame_index: 1, z_index: 0 });
    assert_eq!(median_order(&track), Some(3));
    let mut third = observation(2, 3, "Hero", 0, 10);
    third.source_order = 1;
    record_assignment(&mut track, &third, PlannedCel { source_layer_id: 3, source_frame_index: 2, z_index: 0 });
    assert_eq!(median_order(&track), Some(1));
}

#[test]
fn candidate_score_scales_by_available_evidence() {
    let track = track_from(&observation(0, 1, "Layer 1", 0, 10), 2);
    let next = observation(1, 2, "Layer 2", 0, 99);
    let score = candidate_score(&next, &track, &vec![next.clone()], &Vec::new());
    assert_eq!(score, 92);
}

#[test]
fn evidence_lists_every_matching_signal() {
    let track = track_from(&observation(0, 1, "Hero", 0, 10), 2);
    let next = observation(1, 2, "Hero", 0, 10);
    let evidence = evidence_for(&next, &track, 100, &Vec::new());
    assert_eq!(
        evidence,
        vec![
            "normalized name".to_string(),
            "persistent group path".to_string(),
            "exact RGBA pixels".to_string(),
            "geometry/order context".to_string(),
            "observed frame-disjoint hint".to_string(),
        ]
    );
}

#[test]
fn rejection_reasons_explain_an_ambiguous_choice() {
    let reasons = rejection_reasons(&vec![(1, 70), (2, 65)], AssociationDecisionStatus::Ambiguous, true, 2);
    assert_eq!(
        reasons,
        vec![
            "same name family has 2 observations in this frame".to_string(),
            "family matching has multiple optimal assignments".to_string(),
            "multiple existing family candidates remain".to_string(),
            "candidate score or margin is below the safe threshold".to_string(),
        ]
    );
}

#[test]
fn candidates_sort_by_score_then_track() {
    assert_eq!(sort_candidates(vec![(3, 50), (1, 90), (2, 50)]), vec![(1, 90), (2, 50), (3, 50)]);
}

#[test]
fn tied_family_candidates_open_an_ambiguous_track() {
    let mut tracks = Vec::new();
    for k in 0..2usize {
        let seed = observation(0, 10 + k as u32, "wing", 0, 5);
        let mut track = new_track(k, &seed, 2);
        record_assignment(
            &mut track,
            &seed,
            PlannedCel { source_layer_id: seed.source_layer_id, source_frame_index: 0, z_index: 0 },
        );
        tracks.push(track);
    }
    let mut decisions = Vec::new();
    let next = vec![observation(1, 20, "wing", 0, 5)];
    associate_frame(&next, &mut tracks, 2, &Vec::new(), &mut decisions, &Vec::new());
    assert_eq!(tracks.len(), 3);
    assert!(tracks[0].cels[1].is_none());
    assert!(tracks[1].cels[1].is_none());
    assert_eq!(
        tracks[2].cels[1],
        Some(PlannedCel { source_layer_id: 20, source_frame_index: 1, z_index: 0 })
    );
    assert_eq!(decisions.len(), 1);
    assert_eq!(decisions[0].track_id, 2);
    assert_eq!(decisions[0].status, AssociationDecisionStatus::Ambiguous);
    assert!(decisions[0].matching_tie);
    assert_eq!(decisions[0].margin, 0);
}
