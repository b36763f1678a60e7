use psd2ase_core::aseprite_writer::{CelReuseReport, EncodedAseprite};
use psd2ase_core::conversion::{
    check_conversion_paths, conversion_report, CelReuseTracker, ConvertOptions, LinkedCelMode,
};
use psd2ase_core::error::ConversionError;
use std::path::PathBuf;

#[test]
fn missing_input_is_refused_first() {
    let options = ConvertOptions::default();
    let result = check_conversion_paths(
        PathBuf::from("in.psd"),
        PathBuf::from("out.aseprite"),
        false,
        true,
        &options,
    );
    assert!(matches!(result, Err(ConversionError::InputMissing(path)) if path == PathBuf::from("in.psd")));
}

#[test]
fn existing_output_needs_overwrite() {
    let mut options = ConvertOptions::default();
    let refused = check_conversion_paths(
        PathBuf::from("in.psd"),
        PathBuf::from("out.aseprite"),
        true,
        true,
        &options,
    );
    assert!(matches!(refused, Err(ConversionError::OutputExists(path)) if path == PathBuf::from("out.aseprite")));
    options.overwrite = true;
    let accepted = check_conversion_paths(
        PathBuf::from("in.psd"),
        PathBuf::from("out.aseprite"),
        true,
        true,
        &options,
    )
    .unwrap();
    assert_eq!(accepted.1, PathBuf::from("out.aseprite"));
}

#[test]
fn report_starts_with_the_coordinate_policy() {
    let encoded = EncodedAseprite {
        bytes: vec![1, 2, 3],
        warnings: vec!["kept".to_string()],
        warning_details: Vec::new(),
        cel_reuse: CelReuseReport {
            pixel_cel_count: 2,
            linked_cel_count: 1,
        },
    };
    let report = conversion_report(PathBuf::from("a.psd"), PathBuf::from("b.aseprite"), encoded, None);
    assert_eq!(
        report.warnings,
        vec![
            "coordinate policy: provisional pixels.left/top plus frame offset cel origin".to_string(),
            "kept".to_string()
        ]
    );
    assert_eq!(report.cel_reuse.linked_cel_count, 1);
    assert!(report.association.is_none());
}

#[test]
fn identical_cels_link_to_the_first_copy() {
    let mut tracker = CelReuseTracker::new(LinkedCelMode::Identical);
    assert_eq!(tracker.find_source(1, 1, &[1, 2, 3, 4]), None);
    tracker.record_pixel_cel(0, 1, 1, vec![1, 2, 3, 4]);
    tracker.record_pixel_cel(1, 1, 1, vec![9, 9, 9, 9]);
    assert_eq!(tracker.find_source(1, 1, &[1, 2, 3, 4]), Some(0));
    assert_eq!(tracker.find_source(1, 1, &[9, 9, 9, 9]), Some(1));
    assert_eq!(tracker.find_source(2, 1, &[1, 2, 3, 4]), None);
    tracker.record_link();
    assert_eq!(tracker.report.pixel_cel_count, 2);
    assert_eq!(tracker.report.linked_cel_count, 1);
}

#[test]
fn linking_off_never_finds_a_source() {
    let mut tracker = CelReuseTracker::new(LinkedCelMode::Off);
    tracker.record_pixel_cel(0, 1, 1, vec![1, 2, 3, 4]);
    assert_eq!(tracker.find_source(1, 1, &[1, 2, 3, 4]), None);
    assert!(tracker.sources.is_empty());
}

#[test]
fn emitted_cels_link_repeats_and_store_new_pixels() {
    let mut tracker = CelReuseTracker::new(LinkedCelMode::Identical);
    assert_eq!(tracker.emit_cel(0, 1, 1, &[1, 2, 3, 4], vec![1, 2, 3, 4]), None);
    assert_eq!(tracker.emit_cel(1, 1, 1, &[5, 6, 7, 8], vec![5, 6, 7, 8]), None);
    assert_eq!(tracker.emit_cel(2, 1, 1, &[1, 2, 3, 4], vec![1, 2, 3, 4]), Some(0));
    assert_eq!(tracker.emit_cel(3, 1, 1, &[5, 6, 7, 8], vec![5, 6, 7, 8]), Some(1));
    assert_eq!(tracker.report.pixel_cel_count, 2);
    assert_eq!(tracker.report.linked_cel_count, 2);
    assert_eq!(tracker.sources.len(), 2);
    assert_eq!(tracker.sources[1].source_frame, 1);
}

#[test]
fn emitted_cels_are_never_linked_when_linking_is_off() {
    let mut tracker = CelReuseTracker::new(LinkedCelMode::Off);
    assert_eq!(tracker.emit_cel(0, 1, 1, &[1, 2, 3, 4], vec![1, 2, 3, 4]), None);
    assert_eq!(tracker.emit_cel(1, 1, 1, &[1, 2, 3, 4], vec![1, 2, 3, 4]), None);
    assert_eq!(tracker.report.pixel_cel_count, 2);
    assert_eq!(tracker.report.linked_cel_count, 0);
    assert!(tracker.sources.is_empty());
}
