use psd2ase_core::logical_layers::compact::{associate_frame_compact, compact_candidate_score};
use psd2ase_core::logical_layers::{new_track, record_assignment, Observation, PlannedCel, TrackBuilder};
use psd2ase_core::{AssociationDecisionStatus, AssociationPhase};

fn observation(frame_index: usize, source_layer_id: u32, name: &str, x: i32, pixel: u8) -> Observation {
    Observation {
        frame_index,
        source_layer_id,
        source_path: format!("/{name}"),
        name: name.to_string(),
        normalized_name: name.to_lowercase(),
        name_key: name.to_lowercase(),
        generic_name: name.starts_with("Layer"),
        copy_suffixes: Vec::new(),
        suffix_limit_reached: false,
        frame_container_ids: Vec::new(),
        group_path: Vec::new(),
        source_order: 0,
        x,
        y: 0,
        width: 1,
        height: 1,
        pixels: vec![pixel, pixel, pixel, 255],
    }
}

fn seeded(id: usize, seed: &Observation, frame_count: usize) -> TrackBuilder {
    let mut track = new_track(id, seed, frame_count);
    record_assignment(
        &mut track,
        seed,
        PlannedCel { source_layer_id: seed.source_layer_id, source_frame_index: seed.frame_index as u32, z_index: 0 },
    );
    track
}

#[test]
fn compact_unique_name_is_a_strong_family_decision() {
    let mut tracks = vec![seeded(0, &observation(0, 1, "arm", 0, 5), 2), seeded(1, &observation(0, 2, "leg", 0, 9), 2)];
    let mut decisions = Vec::new();
    let next = vec![observation(1, 3, "leg", 40, 1), observation(1, 4, "arm", 40, 2)];
    associate_frame_compact(&next, &mut tracks, 2, &mut decisions);
    assert_eq!(tracks.len(), 2);
    assert_eq!(decisions.len(), 2);
    assert_eq!(decisions[0].track_id, 1);
    assert_eq!(decisions[1].track_id, 0);
    for made in &decisions {
        assert_eq!(made.status, AssociationDecisionStatus::Strong);
        assert_eq!(made.association_phase, AssociationPhase::Family);
        assert_eq!(made.score, 100);
        assert_eq!(made.margin, 100);
    }
    assert_eq!(tracks[0].cels[1], Some(PlannedCel { source_layer_id: 4, source_frame_index: 1, z_index: 0 }));
    assert_eq!(tracks[1].cels[1], Some(PlannedCel { source_layer_id: 3, source_frame_index: 1, z_index: 0 }));
}

#[test]
fn compact_exact_pixels_claim_a_renamed_layer() {
    let mut tracks = vec![seeded(0, &observation(0, 1, "arm", 0, 5), 2)];
    let mut decisions = Vec::new();
    let next = vec![observation(1, 2, "renamed", 0, 5)];
    associate_frame_compact(&next, &mut tracks, 2, &mut decisions);
    assert_eq!(tracks.len(), 1);
    assert_eq!(decisions[0].track_id, 0);
    assert_eq!(decisions[0].status, AssociationDecisionStatus::Strong);
    assert_eq!(decisions[0].association_phase, AssociationPhase::Family);
}

#[test]
fn compact_same_name_pair_is_not_claimed_by_name() {
    let mut tracks = vec![seeded(0, &observation(0, 1, "wing", 0, 5), 2), seeded(1, &observation(0, 2, "wing", 0, 5), 2)];
    let mut decisions = Vec::new();
    let next = vec![observation(1, 3, "wing", 0, 5)];
    associate_frame_compact(&next, &mut tracks, 2, &mut decisions);
    assert_eq!(decisions.len(), 1);
    assert_ne!(decisions[0].status, AssociationDecisionStatus::Strong);
    assert_eq!(tracks[decisions[0].track_id].cels[1], Some(PlannedCel { source_layer_id: 3, source_frame_index: 1, z_index: 0 }));
}

#[test]
fn compact_score_scales_the_evidence() {
    let seed = observation(0, 1, "arm", 0, 5);
    let track = seeded(0, &seed, 2);
    let same = observation(1, 2, "arm", 0, 5);
    let frame = vec![same.clone()];
    // 30 name + 20 group + 20 order + 20 geometry + 10 pixels, out of 100.
    assert_eq!(compact_candidate_score(&same, &track, &frame), 100);
    let generic = observation(1, 3, "Layer 7", 0, 6);
    let frame = vec![generic.clone()];
    // 20 group + 20 order + 20 geometry, out of 70, capped at 100.
    assert_eq!(compact_candidate_score(&generic, &track, &frame), 85);
}

#[test]
fn compact_with_no_observations_changes_nothing() {
    let mut tracks = vec![seeded(0, &observation(0, 1, "arm", 0, 5), 2)];
    let mut decisions = Vec::new();
    associate_frame_compact(&Vec::new(), &mut tracks, 2, &mut decisions);
    assert_eq!(tracks.len(), 1);
    assert!(decisions.is_empty());
}
