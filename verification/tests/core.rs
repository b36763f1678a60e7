use psd2ase_core::model::{normalized_loop_mode, NormalizedFrame, NormalizedLoopMode};
use psd2ase_core::photoshop_animation::LoopMode;

#[test]
fn static_frame_has_no_serialization_duration() {
    let frame = NormalizedFrame {
        index: 0,
        source_id: None,
        duration_ms: None,
        dispose: None,
    };
    assert_eq!(frame.source_id, None);
    assert_eq!(frame.duration_ms, None);
}

#[test]
fn loop_policies_convert_one_to_one() {
    assert_eq!(normalized_loop_mode(&LoopMode::Infinite), NormalizedLoopMode::Infinite);
    assert_eq!(normalized_loop_mode(&LoopMode::Finite(3)), NormalizedLoopMode::Finite(3));
}
