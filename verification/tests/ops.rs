use image::{ColorType, GenericImageView};
use mandalas::ops;
use mandalas::ops::{affinity_mask, batch_length, init_image, points_to_generate};

#[test]
fn filename_to_save() {
    assert_eq!(&ops::filename_to_save((845, 91, 6322), 4213), "mandala-845x91x6322-04213.png");
}

#[test]
fn filename_to_save_pads_layer() {
    assert_eq!(&ops::filename_to_save((900, 900, 900), 0), "mandala-900x900x900-00000.png");
    assert_eq!(&ops::filename_to_save((1, 2, 3), 7), "mandala-1x2x3-00007.png");
    assert_eq!(&ops::filename_to_save((10, 10, 123456), 123456), "mandala-10x10x123456-123456.png");
    assert_eq!(&ops::filename_to_save((0, 0, 0), 99999), "mandala-0x0x0-99999.png");
}

#[test]
fn filename_names_differ() {
    assert_ne!(ops::filename_to_save((10, 10, 10), 1), ops::filename_to_save((10, 10, 10), 10));
    assert_ne!(ops::filename_to_save((1, 11, 1), 1), ops::filename_to_save((11, 1, 1), 1));
}

#[test]
fn exact() {
    assert_eq!(points_to_generate((10, 10, 1)), 10 * 10 * 1 * 10);
    assert_eq!(points_to_generate((100, 10, 10)), 100 * 10 * 10 * 10);
    assert_eq!(points_to_generate((100, 100, 100)), 100 * 100 * 100 * 10);
    assert_eq!(points_to_generate((1000, 100, 10000)), 1000 * 100 * 10000 * 10);
    assert_eq!(points_to_generate((100, 1000, 1000000)), 100 * 1000 * 1000000 * 10);
}

#[test]
fn low() {
    assert_eq!(points_to_generate((15, 10, 1)), 1000 * 10);
    assert_eq!(points_to_generate((14, 10, 1)), 1000 * 10);
    assert_eq!(points_to_generate((13, 10, 1)), 1000 * 10);
    assert_eq!(points_to_generate((12, 10, 1)), 1000 * 10);
    assert_eq!(points_to_generate((11, 10, 1)), 1000 * 10);
}

#[test]
fn high() {
    assert_eq!(points_to_generate((19, 10, 1)), 1000 * 10);
    assert_eq!(points_to_generate((18, 10, 1)), 1000 * 10);
    assert_eq!(points_to_generate((17, 10, 1)), 1000 * 10);
    assert_eq!(points_to_generate((16, 10, 1)), 1000 * 10);
}

#[test]
fn points_for_tiny_canvases() {
    assert_eq!(points_to_generate((0, 5, 5)), 10);
    assert_eq!(points_to_generate((1, 1, 1)), 10);
    assert_eq!(points_to_generate((2, 1, 1)), 100);
    assert_eq!(points_to_generate((900, 900, 900)), 10_000_000_000);
    assert_eq!(points_to_generate((1_000_000, 1_000_000, 1_000_000)), 10_000_000_000_000_000_000);
}

#[test]
fn points_just_above_the_largest_power() {
    assert_eq!(points_to_generate((1_000_000_000_000_000_001, 1, 1)), 10_000_000_000_000_000_000);
    assert_eq!(points_to_generate((1_000_000_000_000_000_064, 1, 1)), 10_000_000_000_000_000_000);
    assert_eq!(points_to_generate((999_999_999_999_999_999, 1, 1)), 10_000_000_000_000_000_000);
}

#[test]
fn size() {
    let imgs = init_image((123, 456, 78));
    assert_eq!(imgs.len(), 78);
    for img in &imgs {
        assert_eq!(img.dimensions(), (123, 456));
    }
}

#[test]
fn colour_type() {
    let imgs = init_image((123, 456, 78));
    for img in &imgs {
        assert_eq!(img.color(), ColorType::RGB(8));
    }
}

#[test]
fn init_image_empty_depth() {
    assert_eq!(init_image((10, 10, 0)).len(), 0);
    assert_eq!(init_image((usize::MAX, usize::MAX, 0)).len(), 0);
}

#[test]
fn file_names_sort_by_layer() {
    let mut names: Vec<String> = (0..1200).map(|z| ops::filename_to_save((845, 91, 6322), z)).collect();
    let in_layer_order = names.clone();
    names.sort();
    assert_eq!(names, in_layer_order);
    assert!(ops::filename_to_save((3, 3, 3), 99998) < ops::filename_to_save((3, 3, 3), 99999));
    assert!(ops::filename_to_save((3, 3, 3), 9) < ops::filename_to_save((3, 3, 3), 10));
}

#[test]
fn batch_lengths() {
    assert_eq!(batch_length(10_000_000_000, 4), 25_000_000);
    assert_eq!(batch_length(1000, 3), 3);
    assert_eq!(batch_length(10, 1), 0);
}

#[test]
fn affinity_masks() {
    assert_eq!(affinity_mask(0), 1);
    assert_eq!(affinity_mask(3), 8);
    assert_eq!(affinity_mask(10), 1024);
}
