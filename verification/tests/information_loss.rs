use psd2ase_core::information_loss::{
    InformationLocation, InformationLossCode, InformationLossReport, LossDisposition,
};

#[test]
fn aggregates_loss_occurrences_and_bounds_locations() {
    let mut report = InformationLossReport::default();
    for index in 0..10 {
        report.add(
            InformationLossCode::Clipping,
            LossDisposition::Dropped,
            InformationLocation {
                layer_id: Some(index),
                path: format!("layer/{index}"),
            },
            "clipping is not represented",
            true,
            true,
        );
    }
    assert_eq!(report.entries.len(), 1);
    assert_eq!(report.entries[0].count, 10);
    assert_eq!(report.entries[0].locations.len(), 8);
}

#[test]
fn distinct_dispositions_are_separate_entries() {
    let mut report = InformationLossReport::new();
    assert!(!report.is_empty());
    let location = InformationLocation { layer_id: None, path: "doc".to_string() };
    report.add(InformationLossCode::Slices, LossDisposition::Dropped, location.clone(), "first", true, false);
    report.add(InformationLossCode::Slices, LossDisposition::Degraded, location.clone(), "second", false, true);
    report.add(InformationLossCode::Slices, LossDisposition::Dropped, location, "ignored detail", false, false);
    assert!(report.is_empty());
    assert_eq!(report.entries.len(), 2);
    assert_eq!(report.entries[0].count, 2);
    assert_eq!(report.entries[0].detail, "first");
    assert!(report.entries[0].visual_impact);
    assert!(!report.entries[0].editability_impact);
    assert_eq!(report.entries[1].count, 1);
    assert_eq!(report.entries[1].disposition, LossDisposition::Degraded);
}

#[test]
fn wire_names_are_stable() {
    assert_eq!(InformationLossCode::UnsupportedColor.as_str(), "unsupported_color");
    assert_eq!(InformationLossCode::PixelLayerChildren.as_str(), "pixel_layer_children");
    assert_eq!(InformationLossCode::EmbeddedColorProfile.as_str(), "embedded_color_profile");
    assert_eq!(LossDisposition::Rasterized.as_str(), "rasterized");
    assert_eq!(LossDisposition::Unknown.as_str(), "unknown");
}

#[test]
fn add_keeps_one_entry_per_code_and_disposition() {
    let mut report = InformationLossReport::new();
    let location = InformationLocation { layer_id: None, path: "doc".to_string() };
    report.add(InformationLossCode::Slices, LossDisposition::Dropped, location.clone(), "a", true, false);
    assert_eq!(report.entries.len(), 1);
    report.add(InformationLossCode::Slices, LossDisposition::Dropped, location.clone(), "b", true, false);
    assert_eq!(report.entries.len(), 1);
    report.add(InformationLossCode::Clipping, LossDisposition::Dropped, location, "c", true, false);
    assert_eq!(report.entries.len(), 2);
    let keys: Vec<_> = report.entries.iter().map(|e| (e.code, e.disposition)).collect();
    assert_eq!(keys.iter().filter(|k| **k == (InformationLossCode::Slices, LossDisposition::Dropped)).count(), 1);
    assert_eq!(keys.iter().filter(|k| **k == (InformationLossCode::Clipping, LossDisposition::Dropped)).count(), 1);
}

#[test]
fn wire_identifiers_are_distinct() {
    let codes = [
        InformationLossCode::UnsupportedColor,
        InformationLossCode::PixelMask,
        InformationLossCode::VectorMask,
        InformationLossCode::Clipping,
        InformationLossCode::TextLayer,
        InformationLossCode::AdjustmentLayer,
        InformationLossCode::LayerEffects,
        InformationLossCode::SmartObject,
        InformationLossCode::Slices,
        InformationLossCode::LayerComps,
        InformationLossCode::Artboards,
        InformationLossCode::EmbeddedColorProfile,
        InformationLossCode::UnknownBlendMode,
        InformationLossCode::OpacityQuantization,
        InformationLossCode::ReferencePoint,
        InformationLossCode::GroupFrameOpacity,
        InformationLossCode::ActiveFrame,
        InformationLossCode::PixelLayerChildren,
        InformationLossCode::CelZIndex,
        InformationLossCode::EmptyPixelLayer,
        InformationLossCode::AnimationTagName,
    ];
    let mut names: Vec<&str> = codes.iter().map(|code| code.as_str()).collect();
    names.sort();
    names.dedup();
    assert_eq!(names.len(), codes.len());
}
