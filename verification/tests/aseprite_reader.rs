use aseprite::{AsepriteFile, Color, ColorMode, LinkedCelOptions, LoopDirection, Pixels};
use psd2ase_core::aseprite_export::{document_header, blend_mode_name, blit_single_flattened_cel, cel_sample, read_cel_layer, layer_cel_samples, rgba_from_grayscale, rgba_from_indexed, rgba_pixels, CelSample};
use psd2ase_core::aseprite_file::{normal_layer, FileBlend};
use psd2ase_core::aseprite_timeline::{file_playback, playback_sequence, TagDirection, TagRange};
use psd2ase_core::error::ExportError;
use psd2ase_core::information_loss::{InformationLossCode, InformationLossReport};
use psd2ase_core::model::NormalizedLoopMode;

#[test]
fn ping_pong_expansion_does_not_duplicate_endpoints() {
    let mut file = AsepriteFile::new(1, 1, ColorMode::Rgba);
    file.add_frame(10);
    file.add_frame(20);
    file.add_frame(30);
    file.add_tag("loop", 0..=2, LoopDirection::PingPong).expect("add tag");
    let mut report = InformationLossReport::default();
    assert_eq!(file_playback(&file, &mut report).expect("sequence").0, vec![0, 1, 2, 1]);
}

#[test]
fn single_tag_repeat_count_becomes_the_document_loop_count() {
    let mut file = AsepriteFile::new(1, 1, ColorMode::Rgba);
    file.add_frame(10);
    file.add_tag_with("once more", 0..=0, LoopDirection::Forward, 2).expect("add tag");
    let mut report = InformationLossReport::default();
    assert_eq!(file_playback(&file, &mut report).expect("sequence").1, NormalizedLoopMode::Finite(2));
}

#[test]
fn grayscale_pixels_expand_to_rgba() {
    let file = AsepriteFile::new(1, 1, ColorMode::Grayscale);
    let pixels = Pixels::new(vec![90, 128], 1, 1, ColorMode::Grayscale).expect("grayscale pixels");
    assert_eq!(rgba_pixels(&file, &pixels), vec![90, 90, 90, 128]);
}

#[test]
fn indexed_pixels_use_palette_and_transparent_index() {
    let mut file = AsepriteFile::new(2, 1, ColorMode::Indexed);
    file.set_palette(&[
        Color { r: 10, g: 20, b: 30, a: 255, name: None },
        Color { r: 40, g: 50, b: 60, a: 200, name: None },
    ])
    .expect("indexed palette");
    let pixels = Pixels::new(vec![0, 1], 2, 1, ColorMode::Indexed).expect("indexed pixels");
    assert_eq!(rgba_pixels(&file, &pixels), vec![10, 20, 30, 0, 40, 50, 60, 200]);
}

fn tag(name: &str, from_frame: usize, to_frame: usize, direction: TagDirection, repeat: u16) -> TagRange {
    TagRange { name: name.to_string(), from_frame, to_frame, direction, repeat }
}

#[test]
fn untagged_file_plays_every_frame_endlessly() {
    let mut report = InformationLossReport::new();
    let played = playback_sequence(3, &Vec::new(), &mut report).expect("sequence");
    assert_eq!(played, (vec![0, 1, 2], NormalizedLoopMode::Infinite));
    assert!(report.entries.is_empty());
}

#[test]
fn tags_play_one_after_another_by_direction() {
    let mut report = InformationLossReport::new();
    let tags = vec![
        tag("a", 0, 2, TagDirection::Reverse, 0),
        tag("b", 1, 3, TagDirection::PingPongReverse, 0),
        tag("c", 2, 2, TagDirection::PingPong, 0),
    ];
    let (sequence, mode) = playback_sequence(4, &tags, &mut report).expect("sequence");
    assert_eq!(sequence, vec![2, 1, 0, 3, 2, 1, 2, 2]);
    assert_eq!(mode, NormalizedLoopMode::Infinite);
    assert_eq!(report.entries.len(), 1);
    assert_eq!(report.entries[0].code, InformationLossCode::AnimationTagName);
    assert_eq!(InformationLossCode::AnimationTagName.as_str(), "animation_tag_name");
}

#[test]
fn first_unplayable_tag_is_reported() {
    let mut report = InformationLossReport::new();
    let tags = vec![tag("ok", 0, 1, TagDirection::Forward, 0), tag("far", 1, 5, TagDirection::Forward, 0)];
    match playback_sequence(3, &tags, &mut report) {
        Err(ExportError::AsepriteRead(message)) => assert_eq!(message, "tag \"far\" has an invalid frame range"),
        other => panic!("expected a read error, got {other:?}"),
    }
    let odd = vec![tag("odd", 0, 0, TagDirection::Other, 0)];
    match playback_sequence(3, &odd, &mut report) {
        Err(ExportError::AsepriteRead(message)) => assert_eq!(message, "tag \"odd\" uses an unsupported loop direction"),
        other => panic!("expected a read error, got {other:?}"),
    }
    assert!(report.entries.is_empty());
}

#[test]
fn raw_expansions_follow_the_formats() {
    assert_eq!(rgba_from_grayscale(&vec![1, 2, 3, 4]), vec![1, 1, 1, 2, 3, 3, 3, 4]);
    assert_eq!(rgba_from_indexed(&vec![2, 0], &vec![(1, 2, 3, 4)], 9), vec![0, 0, 0, 255, 1, 2, 3, 4]);
}

#[test]
fn flattened_cel_is_copied_with_scaled_alpha() {
    let mut canvas = vec![0u8; 2 * 2 * 4];
    let sample = CelSample { pixels: vec![10, 20, 30, 255], width: 1, height: 1, x: 1, y: 0, opacity: 128, z_index: 0 };
    blit_single_flattened_cel(&mut canvas, 2, 2, &sample);
    assert_eq!(canvas, vec![0, 0, 0, 0, 10, 20, 30, 128, 0, 0, 0, 0, 0, 0, 0, 0]);
}

#[test]
fn flattened_cel_is_clipped_to_the_canvas() {
    let mut canvas = vec![7u8; 2 * 1 * 4];
    let sample = CelSample {
        pixels: vec![1, 1, 1, 255, 2, 2, 2, 255, 3, 3, 3, 255, 4, 4, 4, 255],
        width: 2,
        height: 2,
        x: -1,
        y: -1,
        opacity: 255,
        z_index: 0,
    };
    blit_single_flattened_cel(&mut canvas, 2, 1, &sample);
    assert_eq!(canvas, vec![4, 4, 4, 255, 7, 7, 7, 7]);
}

#[test]
fn linked_cel_reads_its_source_pixels_at_its_own_place() {
    let mut file = AsepriteFile::new(4, 4, ColorMode::Rgba);
    let handle = file.add_layer("body");
    file.add_frame(100);
    file.add_frame(100);
    file.add_frame(100);
    file.set_raw_cel(handle, 0, Pixels::new(vec![1, 2, 3, 4], 1, 1, ColorMode::Rgba).unwrap(), 1, 1).unwrap();
    file.set_linked_cel_with(handle, 1, 0, LinkedCelOptions { x: 3, y: 2, opacity: 77, ..Default::default() }).unwrap();
    let layer = normal_layer(&file, 0).expect("normal layer");
    let sample = cel_sample(&file, &layer, 1).expect("readable cel").expect("a sample");
    assert_eq!((sample.x, sample.y, sample.opacity, sample.width, sample.height), (3, 2, 77, 1, 1));
    assert_eq!(sample.pixels, vec![1, 2, 3, 4]);
    let samples = layer_cel_samples(&file, &layer, &vec![0, 2, 1]).expect("readable cels");
    assert!(samples[0].is_some());
    assert!(samples[1].is_none());
    assert_eq!(samples[2].as_ref().map(|s| s.x), Some(3));
}

#[test]
fn normal_layer_reads_as_variant_group_with_its_attributes() {
    let mut file = AsepriteFile::new(4, 4, ColorMode::Rgba);
    let handle = file.add_layer("arm");
    file.add_frame(100);
    file.add_frame(100);
    file.set_raw_cel(handle, 0, Pixels::new(vec![1, 1, 1, 255], 1, 1, ColorMode::Rgba).unwrap(), 0, 0).unwrap();
    file.set_raw_cel(handle, 1, Pixels::new(vec![2, 2, 2, 255], 1, 1, ColorMode::Rgba).unwrap(), 0, 0).unwrap();
    let mut report = InformationLossReport::new();
    let mut next_id = 1;
    let layer = read_cel_layer(&file, 0, &vec![0, 1], &mut report, &mut next_id).expect("readable layer");
    assert_eq!(next_id, 4);
    assert_eq!(layer.id, 3);
    assert_eq!(layer.name, "arm");
    assert_eq!(layer.blend_mode.as_deref(), Some("normal"));
    assert_eq!(layer.children.len(), 2);
    assert_eq!(layer.children[1].name, "arm — Cel 2");
    assert_eq!(blend_mode_name(FileBlend::Addition), "linear dodge");
    assert_eq!(blend_mode_name(FileBlend::Unknown), "normal");
}

#[test]
fn document_header_plays_the_sequence_with_file_durations() {
    let mut file = AsepriteFile::new(5, 7, ColorMode::Rgba);
    file.add_frame(10);
    file.add_frame(20);
    let document = document_header(&file, &vec![1, 0, 1], Vec::new(), NormalizedLoopMode::Finite(3));
    assert_eq!(document.canvas, (5, 7));
    assert_eq!(document.color_mode.as_deref(), Some("rgba"));
    let durations: Vec<Option<u32>> = document.frames.iter().map(|frame| frame.duration_ms).collect();
    assert_eq!(durations, vec![Some(20), Some(10), Some(20)]);
    assert_eq!(document.frames[2].index, 2);
    assert_eq!(document.frames[2].source_id, Some(3));
    assert_eq!(document.loop_mode, Some(NormalizedLoopMode::Finite(3)));
    assert_eq!(document.animation_resource_ids, vec![4000]);
}
