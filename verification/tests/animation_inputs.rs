use psd2ase_core::animation_inputs::{animation_inputs_decision, match_raw_layers, require_catalog_frames};
use psd2ase_core::photoshop_animation::{LayerMetadata, RawLayer};
use psd2ase_core::{AnimationFlags, AnimationLayerInput, AnimationParseError};

fn input(id: u32, path: &str) -> AnimationLayerInput {
    AnimationLayerInput {
        id,
        path: path.to_string(),
        is_group: false,
        is_container_group: false,
        hidden: false,
        ancestor_ids: Vec::new(),
    }
}

fn raw(id: Option<u32>, flags: Option<AnimationFlags>, nested: Option<Option<AnimationFlags>>) -> RawLayer {
    RawLayer {
        id,
        shmd: nested.map(|flags| LayerMetadata { mlst_payloads: Vec::new(), flags }),
        flags,
        is_bounding_divider: false,
    }
}

fn flags(propagate: bool) -> AnimationFlags {
    AnimationFlags {
        propagate_frame_one: propagate,
        unify_layer_position: false,
        unify_layer_style: false,
        unify_layer_visibility: false,
    }
}

#[test]
fn no_catalog_and_no_layer_metadata_is_no_animation() {
    let decision = animation_inputs_decision(false, &vec![raw(Some(1), None, None)], &vec![input(1, "0")]);
    assert_eq!(decision, Ok(false));
}

#[test]
fn layer_metadata_without_catalog_is_an_error() {
    let decision = animation_inputs_decision(false, &vec![raw(Some(1), None, Some(None))], &vec![input(1, "0")]);
    assert_eq!(
        decision,
        Err(AnimationParseError::InvalidData("layer animation metadata exists without a 4000/4003 frame catalog".to_string()))
    );
    assert_eq!(animation_inputs_decision(true, &Vec::new(), &vec![input(1, "0")]), Ok(true));
}

#[test]
fn an_empty_catalog_is_an_error() {
    assert_eq!(
        require_catalog_frames(0),
        Err(AnimationParseError::InvalidData("animation catalog contains no frames".to_string()))
    );
    assert_eq!(require_catalog_frames(2), Ok(()));
}

#[test]
fn layers_are_matched_to_their_records_and_flags_merge() {
    let records = vec![raw(Some(7), Some(flags(true)), None), raw(Some(3), None, Some(Some(flags(true))))];
    let (indices, merged) = match_raw_layers(&records, &vec![input(3, "0"), input(7, "1")]).unwrap();
    assert_eq!(indices, vec![1, 0]);
    assert_eq!(merged, Some(flags(true)));
}

#[test]
fn unknown_missing_and_conflicting_layers_are_rejected() {
    assert_eq!(
        match_raw_layers(&vec![raw(Some(9), None, None)], &vec![input(1, "0")]),
        Err(AnimationParseError::UnknownLayerId(9))
    );
    assert_eq!(
        match_raw_layers(&vec![raw(Some(1), None, None)], &vec![input(1, "0"), input(2, "1")]),
        Err(AnimationParseError::MissingLayerId { path: "1".to_string() })
    );
    assert_eq!(
        match_raw_layers(
            &vec![raw(Some(1), Some(flags(true)), None), raw(Some(2), Some(flags(false)), None)],
            &vec![input(1, "0"), input(2, "1")]
        ),
        Err(AnimationParseError::InvalidData("conflicting mdyn flags across layers".to_string()))
    );
}
