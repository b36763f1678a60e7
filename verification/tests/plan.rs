use psd2ase_core::logical_layers::plan::{associate_frames, choose_anchor_frame};
use psd2ase_core::logical_layers::Observation;
use psd2ase_core::{AssociationDecisionStatus, AssociationPhase};

fn observation(frame_index: usize, source_layer_id: u32, name: &str, source_order: usize, pixel: u8) -> Observation {
    Observation {
        frame_index,
        source_layer_id,
        source_path: format!("/{name}"),
        name: name.to_string(),
        normalized_name: name.to_lowercase(),
        name_key: name.to_lowercase(),
        generic_name: name.starts_with("Layer"),
        copy_suffixes: Vec::new(),
        suffix_limit_reached: false,
        frame_container_ids: Vec::new(),
        group_path: Vec::new(),
        source_order,
        x: 0,
        y: 0,
        width: 1,
        height: 1,
        pixels: vec![pixel, pixel, pixel, 255],
    }
}

#[test]
fn anchor_frame_prefers_specific_names() {
    let frames = vec![
        vec![observation(0, 1, "Layer 1", 0, 1), observation(0, 2, "Layer 2", 1, 2)],
        vec![observation(1, 3, "Hero", 0, 1)],
    ];
    assert_eq!(choose_anchor_frame(&frames), 1);
}

#[test]
fn anchor_frame_ties_go_to_the_earliest_frame() {
    let frames = vec![
        vec![observation(0, 1, "Hero", 0, 1)],
        vec![observation(1, 2, "Hero", 0, 1)],
    ];
    assert_eq!(choose_anchor_frame(&frames), 0);
}

#[test]
fn named_layers_follow_their_names_across_frames() {
    let frames = vec![
        vec![observation(0, 1, "A", 0, 10), observation(0, 2, "B", 1, 20)],
        vec![observation(1, 3, "B", 0, 30), observation(1, 4, "A", 1, 40)],
    ];
    let (tracks, decisions, anchor) = associate_frames(&frames, &Vec::new());
    assert_eq!(anchor, 0);
    assert_eq!(tracks.len(), 2);
    assert_eq!(tracks[0].cels[0].map(|cel| cel.source_layer_id), Some(1));
    assert_eq!(tracks[0].cels[1].map(|cel| cel.source_layer_id), Some(4));
    assert_eq!(tracks[1].cels[0].map(|cel| cel.source_layer_id), Some(2));
    assert_eq!(tracks[1].cels[1].map(|cel| cel.source_layer_id), Some(3));
    assert_eq!(decisions.len(), 4);
    assert_eq!(decisions[0].association_phase, AssociationPhase::Anchor);
    assert_eq!(decisions[0].status, AssociationDecisionStatus::Strong);
    assert_eq!(decisions[2].association_phase, AssociationPhase::Family);
    assert_eq!(decisions[2].status, AssociationDecisionStatus::Inferred);
}

#[test]
fn every_observation_gets_exactly_one_track() {
    let frames = vec![
        vec![observation(0, 1, "Hero", 0, 10)],
        vec![observation(1, 2, "Hero", 0, 10), observation(1, 3, "Layer 5", 1, 90)],
        vec![observation(2, 4, "Layer 9", 0, 77)],
    ];
    let (tracks, _, _) = associate_frames(&frames, &Vec::new());
    for (frame_index, frame) in frames.iter().enumerate() {
        for observation in frame {
            let holders = tracks
                .iter()
                .filter(|track| {
                    track.cels[frame_index].map(|cel| cel.source_layer_id) == Some(observation.source_layer_id)
                })
                .count();
            assert_eq!(holders, 1);
        }
    }
}
