use ordered_pipeline::filters::{apply_filter, is_addressable, needs_factor, FilterError, Picture};
use ordered_pipeline::workload::{
    compressed_name, compression_layout, decompressed_name, detector_at, eye_tracker_layout,
    file_action, filter_at, filter_layout, fractal_layout, Detector, FileAction, Filter,
};
use ordered_pipeline::stage_id::StageId;

fn two_pixels() -> Picture {
    Picture { width: 2, height: 1, bytes: vec![10, 20, 30, 255, 50, 60, 70, 255] }
}

#[test]
fn sharpen_weighs_a_pixel_against_its_neighbours() {
    // With edge pixels repeated the kernel gives 2A - B and 2B - A, clamped to a byte.
    let out = apply_filter(Filter::Sharpen, two_pixels()).unwrap();
    assert_eq!(out, Picture { width: 2, height: 1, bytes: vec![0, 0, 0, 255, 90, 100, 110, 255] });
}

#[test]
fn emboss_lifts_towards_the_lower_right() {
    // With edge pixels repeated the kernel gives 3B - 2A and 4B - 3A.
    let out = apply_filter(Filter::Emboss, two_pixels()).unwrap();
    assert_eq!(
        out,
        Picture { width: 2, height: 1, bytes: vec![130, 140, 150, 255, 170, 180, 190, 255] }
    );
}

#[test]
fn grayscale_writes_the_weighted_sum_into_all_four_bytes() {
    let picture = Picture { width: 1, height: 2, bytes: vec![100, 150, 200, 255, 0, 0, 0, 9] };
    let out = apply_filter(Filter::Grayscale, picture).unwrap();
    assert_eq!(out, Picture { width: 1, height: 2, bytes: vec![140, 140, 140, 140, 0, 0, 0, 0] });
}

#[test]
fn picture_without_pixels_passes() {
    let empty = Picture { width: 0, height: 5, bytes: vec![1, 2, 3] };
    assert_eq!(
        apply_filter(Filter::Emboss, empty),
        Ok(Picture { width: 0, height: 5, bytes: vec![1, 2, 3] })
    );
    let negative = Picture { width: -1, height: -1, bytes: vec![] };
    assert_eq!(
        apply_filter(Filter::Grayscale, negative),
        Ok(Picture { width: -1, height: -1, bytes: vec![] })
    );
}

#[test]
fn refused_pictures_and_filters() {
    assert_eq!(apply_filter(Filter::Saturation, two_pixels()), Err(FilterError::NeedsFactor));
    assert_eq!(apply_filter(Filter::Gamma, two_pixels()), Err(FilterError::NeedsFactor));
    let short = Picture { width: 2, height: 2, bytes: vec![0; 15] };
    assert_eq!(apply_filter(Filter::Sharpen, short), Err(FilterError::Incomplete));
    let short = Picture { width: 2, height: 2, bytes: vec![0; 15] };
    assert_eq!(apply_filter(Filter::Grayscale, short), Err(FilterError::Incomplete));
    let huge = Picture { width: 65536, height: 65536, bytes: vec![] };
    assert_eq!(apply_filter(Filter::Emboss, huge), Err(FilterError::TooLarge));
}

#[test]
fn addressable_up_to_the_last_32_bit_index() {
    assert!(is_addressable(0, i32::MAX));
    assert!(is_addressable(i32::MIN, i32::MAX));
    assert!(is_addressable(536870911, 1));
    assert!(!is_addressable(536870912, 1));
    assert!(is_addressable(23170, 23170));
    assert!(!is_addressable(23171, 23171));
    assert!(!is_addressable(i32::MAX, i32::MAX));
    assert!(needs_factor(Filter::Saturation));
    assert!(needs_factor(Filter::Gamma));
    assert!(!needs_factor(Filter::Emboss));
    assert!(!needs_factor(Filter::Sharpen));
    assert!(!needs_factor(Filter::Grayscale));
}

#[test]
fn filter_chain_order() {
    let chain: Vec<Option<Filter>> = (0..6).map(filter_at).collect();
    assert_eq!(
        chain,
        vec![
            Some(Filter::Saturation),
            Some(Filter::Emboss),
            Some(Filter::Gamma),
            Some(Filter::Sharpen),
            Some(Filter::Grayscale),
            None
        ]
    );
    assert_eq!(detector_at(0), Some(Detector::Face));
    assert_eq!(detector_at(1), Some(Detector::Eye));
    assert_eq!(detector_at(2), None);
}

#[test]
fn file_actions_and_names() {
    assert_eq!(file_action("compress"), Some(FileAction::Compress));
    assert_eq!(file_action("decompress"), Some(FileAction::Decompress));
    assert_eq!(file_action("Compress"), None);
    assert_eq!(file_action(""), None);
    assert_eq!(compressed_name("data/wiki_data"), "data/wiki_data.bz2");
    assert_eq!(decompressed_name("video.avi.bz2"), Some("video.avi".to_string()));
    assert_eq!(decompressed_name(".bz2"), Some(String::new()));
    assert_eq!(decompressed_name("bz2"), None);
}

#[test]
fn workload_layouts() {
    let compression = compression_layout(4).unwrap();
    assert_eq!(compression.lanes.len(), 4);
    assert_eq!(compression.lanes[3], vec![StageId(5)]);
    assert!(compression_layout(0).is_none());

    let eyes = eye_tracker_layout(3).unwrap();
    assert_eq!(eyes.lanes[2], vec![StageId(6), StageId(7)]);
    assert_eq!(eyes.graph.producers(StageId(1)), vec![StageId(3), StageId(5), StageId(7)]);
    assert!(eye_tracker_layout(0).is_none());
    assert!(eye_tracker_layout(-2).is_none());

    let filters = filter_layout(2).unwrap();
    assert_eq!(filters.sink, None);
    assert_eq!(filters.graph.stage_count(), 11);
    assert!(filter_layout(0).is_none());

    let fractal = fractal_layout(2).unwrap();
    assert_eq!(fractal.sink, Some(StageId(1)));
    assert_eq!(fractal.graph.stage_count(), 6);
    assert!(fractal_layout(0).is_none());
}
