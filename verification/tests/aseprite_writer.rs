use psd2ase_core::aseprite_writer::{
    fnv1a, frame_durations, i16_value, loop_repeat, u16_value, CelReuseReport, WarningCollector,
    WriterError, DEFAULT_FRAME_DURATION_MS,
};
use psd2ase_core::information_loss::{InformationLocation, InformationLossCode, LossDisposition};
use psd2ase_core::model::{NormalizedFrame, NormalizedLoopMode};

fn frame(index: u32, duration_ms: Option<u32>) -> NormalizedFrame {
    NormalizedFrame {
        index,
        source_id: None,
        duration_ms,
        dispose: None,
    }
}

#[test]
fn fnv1a_matches_published_values() {
    assert_eq!(fnv1a(&[]), 0xcbf2_9ce4_8422_2325);
    assert_eq!(fnv1a(b"a"), 0xaf63_dc4c_8601_ec8c);
    assert_eq!(fnv1a(b"foobar"), 0x8594_4171_f739_67e8);
}

#[test]
fn static_frames_use_the_default_duration() {
    let durations = frame_durations(&vec![frame(0, None), frame(1, Some(250))]).unwrap();
    assert_eq!(durations, vec![DEFAULT_FRAME_DURATION_MS, 250]);
}

#[test]
fn empty_timeline_is_rejected() {
    assert!(matches!(frame_durations(&Vec::new()), Err(WriterError::Aseprite(_))));
}

#[test]
fn out_of_place_frame_index_is_reported() {
    let result = frame_durations(&vec![frame(0, None), frame(2, None)]);
    assert_eq!(
        result,
        Err(WriterError::InvalidFrameIndex {
            expected: 1,
            actual: 2
        })
    );
}

#[test]
fn oversized_frame_duration_is_a_format_limit() {
    let result = frame_durations(&vec![frame(0, Some(70_000))]);
    assert_eq!(
        result,
        Err(WriterError::FormatLimit {
            field: "frame duration".to_string(),
            value: 70_000,
            max: 65_535
        })
    );
}

#[test]
fn sixteen_bit_conversions_check_their_range() {
    assert_eq!(u16_value("width", 65_535), Ok(65_535));
    assert!(matches!(u16_value("width", 65_536), Err(WriterError::FormatLimit { value: 65_536, .. })));
    assert_eq!(i16_value("x", -32_768), Ok(-32_768));
    assert!(matches!(i16_value("x", 40_000), Err(WriterError::FormatLimit { max: 32_767, .. })));
}

#[test]
fn loop_repeat_counts_follow_the_loop_mode() {
    assert_eq!(loop_repeat(&NormalizedLoopMode::Infinite), Ok(0));
    assert_eq!(loop_repeat(&NormalizedLoopMode::Finite(3)), Ok(3));
    assert!(loop_repeat(&NormalizedLoopMode::Finite(100_000)).is_err());
}

#[test]
fn warning_collector_keeps_order_and_text() {
    let mut collector = WarningCollector::new();
    collector.push(
        InformationLossCode::UnknownBlendMode,
        LossDisposition::Degraded,
        InformationLocation { layer_id: Some(7), path: "Layer".to_string() },
        "first".to_string(),
        true,
        false,
    );
    collector.push(
        InformationLossCode::UnknownBlendMode,
        LossDisposition::Degraded,
        InformationLocation { layer_id: Some(7), path: "Layer".to_string() },
        "second".to_string(),
        false,
        true,
    );
    let (messages, details) = collector.into_parts();
    assert_eq!(messages, vec!["first".to_string(), "second".to_string()]);
    assert_eq!(details.len(), 2);
    assert!(details[1].editability_impact);
}

#[test]
fn empty_cel_reuse_report_counts_nothing() {
    let report = CelReuseReport::default();
    assert_eq!(report.pixel_cel_count, 0);
    assert_eq!(report.linked_cel_count, 0);
}
