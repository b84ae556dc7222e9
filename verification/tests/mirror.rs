use image_processor::mirror::{flip_horizontal, flip_vertical, process_image, MirrorParams};
use image_processor::params::{Document, Member, Setting};

/// Creates a 2x2 test image with unique colors per pixel.
/// Format: 2x2, each pixel = 4 bytes RGBA.
fn make_2x2() -> Vec<u8> {
    vec![
        255, 0, 0, 255, // top-left — red
        0, 255, 0, 255, // top-right — green
        0, 0, 255, 255, // bottom-left — blue
        255, 255, 255, 255, // bottom-right — white
    ]
}

/// A 4x4 image, red in the top-left quadrant and blue elsewhere.
fn red_and_blue() -> Vec<u8> {
    let mut data = Vec::new();
    for y in 0..4 {
        for x in 0..4 {
            if x < 2 && y < 2 {
                data.extend_from_slice(&[255, 0, 0, 255]);
            } else {
                data.extend_from_slice(&[0, 0, 255, 255]);
            }
        }
    }
    data
}

fn pixel(data: &[u8], width: usize, x: usize, y: usize) -> [u8; 4] {
    let at = (y * width + x) * 4;
    [data[at], data[at + 1], data[at + 2], data[at + 3]]
}

fn numbered(width: usize, height: usize) -> Vec<u8> {
    (0..width * height * 4).map(|i| (i % 251) as u8).collect()
}

#[test]
fn horizontal_flip_2x2() {
    let mut data = make_2x2();
    flip_horizontal(&mut data, 2, 2);

    // After horizontal flip:
    // green, red
    // white, blue
    assert_eq!(
        data,
        vec![
            0, 255, 0, 255, // green
            255, 0, 0, 255, // red
            255, 255, 255, 255, // white
            0, 0, 255, 255, // blue
        ]
    );
}

#[test]
fn vertical_flip_2x2() {
    let mut data = make_2x2();
    flip_vertical(&mut data, 2, 2);

    // After vertical flip:
    // blue, white
    // red, green
    assert_eq!(
        data,
        vec![
            0, 0, 255, 255, // blue
            255, 255, 255, 255, // white
            255, 0, 0, 255, // red
            0, 255, 0, 255, // green
        ]
    );
}

#[test]
fn both_flips_2x2() {
    let mut data = make_2x2();
    flip_horizontal(&mut data, 2, 2);
    flip_vertical(&mut data, 2, 2);

    // Horizontal + vertical = 180° rotation:
    // white, blue
    // green, red
    assert_eq!(
        data,
        vec![
            255, 255, 255, 255, // white
            0, 0, 255, 255, // blue
            0, 255, 0, 255, // green
            255, 0, 0, 255, // red
        ]
    );
}

#[test]
fn horizontal_flip_single_column() {
    // 1x3 image — horizontal flip changes nothing
    let mut data = vec![
        1, 2, 3, 4, //
        5, 6, 7, 8, //
        9, 10, 11, 12, //
    ];
    let original = data.clone();
    flip_horizontal(&mut data, 1, 3);
    assert_eq!(data, original);
}

#[test]
fn vertical_flip_single_row() {
    // 3x1 image — vertical flip changes nothing
    let mut data = vec![
        1, 2, 3, 4, //
        5, 6, 7, 8, //
        9, 10, 11, 12, //
    ];
    let original = data.clone();
    flip_vertical(&mut data, 3, 1);
    assert_eq!(data, original);
}

#[test]
fn mirror_horizontal_flips_pixels() {
    let mut result = red_and_blue();
    let status = process_image(
        4,
        4,
        Some(result.as_mut_slice()),
        Some(br#"{"horizontal": true}"#.as_slice()),
    );
    assert_eq!(status, 0);

    // After horizontal flip of a 4x4 image:
    // top-right quadrant should now be red (was top-left)
    let top_right = pixel(&result, 4, 3, 0);
    assert_eq!(top_right, [255, 0, 0, 255]);

    // top-left should now be blue (was top-right area)
    let top_left = pixel(&result, 4, 0, 0);
    assert_eq!(top_left, [0, 0, 255, 255]);
}

#[test]
fn mirror_vertical_flips_pixels() {
    let mut result = red_and_blue();
    let status = process_image(
        4,
        4,
        Some(result.as_mut_slice()),
        Some(br#"{"vertical": true}"#.as_slice()),
    );
    assert_eq!(status, 0);

    // After vertical flip:
    // bottom-left quadrant should now be red (was top-left)
    let bottom_left = pixel(&result, 4, 0, 3);
    assert_eq!(bottom_left, [255, 0, 0, 255]);

    // top-left should now be blue
    let top_left = pixel(&result, 4, 0, 0);
    assert_eq!(top_left, [0, 0, 255, 255]);
}

#[test]
fn horizontal_flip_odd_width_keeps_middle_column() {
    let mut data = vec![
        1, 2, 3, 4, 5, 6, 7, 8, 9, 10, 11, 12, //
        13, 14, 15, 16, 17, 18, 19, 20, 21, 22, 23, 24,
    ];
    flip_horizontal(&mut data, 3, 2);
    assert_eq!(
        data,
        vec![
            9, 10, 11, 12, 5, 6, 7, 8, 1, 2, 3, 4, //
            21, 22, 23, 24, 17, 18, 19, 20, 13, 14, 15, 16,
        ]
    );
}

#[test]
fn vertical_flip_odd_height_keeps_middle_row() {
    let mut data = vec![
        1, 2, 3, 4, 5, 6, 7, 8, //
        9, 10, 11, 12, 13, 14, 15, 16, //
        17, 18, 19, 20, 21, 22, 23, 24,
    ];
    flip_vertical(&mut data, 2, 3);
    assert_eq!(
        data,
        vec![
            17, 18, 19, 20, 21, 22, 23, 24, //
            9, 10, 11, 12, 13, 14, 15, 16, //
            1, 2, 3, 4, 5, 6, 7, 8,
        ]
    );
}

#[test]
fn double_horizontal_flip_is_identity() {
    for (width, height) in [(1, 1), (2, 3), (5, 4), (7, 7), (8, 1)] {
        let original = numbered(width, height);
        let mut data = original.clone();
        flip_horizontal(&mut data, width, height);
        flip_horizontal(&mut data, width, height);
        assert_eq!(data, original);
    }
}

#[test]
fn double_vertical_flip_is_identity() {
    for (width, height) in [(1, 1), (2, 3), (5, 4), (7, 7), (1, 8)] {
        let original = numbered(width, height);
        let mut data = original.clone();
        flip_vertical(&mut data, width, height);
        flip_vertical(&mut data, width, height);
        assert_eq!(data, original);
    }
}

#[test]
fn both_flips_reverse_the_pixels() {
    for (width, height) in [(2, 2), (3, 2), (4, 5), (1, 6)] {
        let original = numbered(width, height);
        let mut expected = Vec::new();
        for chunk in original.chunks(4).rev() {
            expected.extend_from_slice(chunk);
        }
        let mut one_way = original.clone();
        flip_horizontal(&mut one_way, width, height);
        flip_vertical(&mut one_way, width, height);
        assert_eq!(one_way, expected);
        let mut other_way = original.clone();
        flip_vertical(&mut other_way, width, height);
        flip_horizontal(&mut other_way, width, height);
        assert_eq!(other_way, expected);
    }
}

#[test]
fn flips_of_empty_image_do_nothing() {
    let mut data: Vec<u8> = Vec::new();
    flip_horizontal(&mut data, 0, 3);
    flip_vertical(&mut data, 3, 0);
    flip_horizontal(&mut data, usize::MAX, 0);
    assert!(data.is_empty());
}

#[test]
fn mirror_params_decode_given_fields() {
    assert_eq!(
        MirrorParams::decode(r#"{"horizontal": true}"#),
        Some(MirrorParams { horizontal: true, vertical: false })
    );
    assert_eq!(
        MirrorParams::decode(r#"{"vertical": true, "horizontal": false}"#),
        Some(MirrorParams { horizontal: false, vertical: true })
    );
    assert_eq!(
        MirrorParams::decode("{}"),
        Some(MirrorParams { horizontal: false, vertical: false })
    );
    assert_eq!(
        MirrorParams::decode(r#"{"angle": 90, "vertical": true}"#),
        Some(MirrorParams { horizontal: false, vertical: true })
    );
}

#[test]
fn mirror_params_decode_reports_failure() {
    assert_eq!(MirrorParams::decode(""), None);
    assert_eq!(MirrorParams::decode("{"), None);
    assert_eq!(MirrorParams::decode("true"), None);
    assert_eq!(MirrorParams::decode(r#"{"horizontal": 1}"#), None);
    assert_eq!(MirrorParams::decode(r#"{"horizontal": "true"}"#), None);
    assert_eq!(MirrorParams::decode(r#"{"horizontal": true, "vertical": null}"#), None);
}

#[test]
fn mirror_params_merge_settings() {
    assert_eq!(
        MirrorParams::merge(Setting::Absent, Setting::Absent),
        Some(MirrorParams { horizontal: false, vertical: false })
    );
    assert_eq!(
        MirrorParams::merge(Setting::Given(true), Setting::Given(false)),
        Some(MirrorParams { horizontal: true, vertical: false })
    );
    assert_eq!(MirrorParams::merge(Setting::Invalid, Setting::Absent), None);
    assert_eq!(MirrorParams::merge(Setting::Given(true), Setting::Invalid), None);
}

#[test]
fn mirror_params_from_document() {
    let document = Document {
        members: vec![
            Member { key: "vertical".to_string(), value: "true".to_string() },
            Member { key: "other".to_string(), value: "[1, 2]".to_string() },
        ],
    };
    assert_eq!(
        MirrorParams::from_document(&document),
        Some(MirrorParams { horizontal: false, vertical: true })
    );
    let wrong = Document {
        members: vec![Member { key: "horizontal".to_string(), value: "1".to_string() }],
    };
    assert_eq!(MirrorParams::from_document(&wrong), None);
}

#[test]
fn mirror_entry_ignores_values_of_unknown_keys() {
    let mut data = make_2x2();
    let status = process_image(
        2,
        2,
        Some(data.as_mut_slice()),
        Some(br#"{"horizontal": true, "x": 1e999}"#.as_slice()),
    );
    assert_eq!(status, 0);
    assert_eq!(
        data,
        vec![0, 255, 0, 255, 255, 0, 0, 255, 255, 255, 255, 255, 0, 0, 255, 255]
    );
}

#[test]
fn mirror_entry_applies_both_flips() {
    let mut data = make_2x2();
    let status = process_image(
        2,
        2,
        Some(data.as_mut_slice()),
        Some(br#"{"horizontal": true, "vertical": true}"#.as_slice()),
    );
    assert_eq!(status, 0);
    assert_eq!(
        data,
        vec![255, 255, 255, 255, 0, 0, 255, 255, 0, 255, 0, 255, 255, 0, 0, 255]
    );
}

#[test]
fn mirror_entry_without_flips_succeeds_and_changes_nothing() {
    let mut data = make_2x2();
    assert_eq!(process_image(2, 2, Some(data.as_mut_slice()), Some(b"{}".as_slice())), 0);
    assert_eq!(data, make_2x2());
}

#[test]
fn mirror_entry_reports_missing_input() {
    let mut data = make_2x2();
    assert_eq!(process_image(2, 2, None, Some(b"{}".as_slice())), 1);
    assert_eq!(process_image(2, 2, Some(data.as_mut_slice()), None), 1);
    assert_eq!(process_image(0, 0, None, None), 1);
    assert_eq!(data, make_2x2());
}

#[test]
fn mirror_entry_reports_empty_image() {
    let mut data: Vec<u8> = Vec::new();
    let params = br#"{"horizontal": true}"#;
    assert_eq!(process_image(0, 2, Some(data.as_mut_slice()), Some(params.as_slice())), 2);
    assert_eq!(process_image(2, 0, Some(data.as_mut_slice()), Some(params.as_slice())), 2);
    assert_eq!(process_image(0, 0, Some(data.as_mut_slice()), Some(b"oops".as_slice())), 2);
}

#[test]
fn mirror_entry_reports_size_overflow() {
    let mut data = make_2x2();
    let params = br#"{"horizontal": true}"#;
    assert_eq!(
        process_image(0x8000_0000, 0x8000_0000, Some(data.as_mut_slice()), Some(params.as_slice())),
        3
    );
    assert_eq!(
        process_image(u32::MAX, u32::MAX, Some(data.as_mut_slice()), Some(b"oops".as_slice())),
        3
    );
    assert_eq!(data, make_2x2());
}

#[test]
fn mirror_entry_reports_malformed_params() {
    let mut data = make_2x2();
    for params in [&b"oops"[..], &b""[..], &b"[true]"[..], &[0xc3, 0x28][..]] {
        assert_eq!(process_image(2, 2, Some(data.as_mut_slice()), Some(params)), 4);
        assert_eq!(data, make_2x2());
    }
    assert_eq!(
        process_image(
            2,
            2,
            Some(data.as_mut_slice()),
            Some(br#"{"horizontal": "yes"}"#.as_slice())
        ),
        4
    );
    assert_eq!(data, make_2x2());
}
