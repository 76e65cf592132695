use arkana::covers::circular_distance;

#[test]
fn test_circular_distance() {
    assert_eq!(circular_distance(0, 0, 5), 0);
    assert_eq!(circular_distance(0, 1, 5), 1);
    assert_eq!(circular_distance(0, 4, 5), 1);
    assert_eq!(circular_distance(0, 2, 5), 2);
    assert_eq!(circular_distance(0, 3, 5), 2);
}

use arkana::covers::{
    in_window, placeholder_hue, title_initial, CoverAction, CoverState, COVER_WINDOW,
};

#[test]
fn circular_distance_is_symmetric_and_wraps() {
    for n in 1..9 {
        for a in 0..n {
            for b in 0..n {
                let d = circular_distance(a, b, n);
                assert_eq!(d, circular_distance(b, a, n));
                assert!(d <= n / 2);
            }
        }
    }
    assert_eq!(circular_distance(1, 9, 10), 2);
    assert_eq!(circular_distance(3, 3, 1), 0);
}

#[test]
fn circular_distance_of_empty_ring_is_max() {
    assert_eq!(circular_distance(0, 0, 0), usize::MAX);
}

#[test]
fn small_libraries_are_wholly_in_the_window() {
    for n in 0..=2 * COVER_WINDOW + 1 {
        for i in 0..n {
            assert!(in_window(i, 0, n));
        }
    }
    assert!(in_window(0, 0, 10));
    assert!(in_window(8, 0, 10));
    assert!(!in_window(3, 0, 10));
    assert!(!in_window(7, 0, 10));
}

#[test]
fn refresh_loads_covers_in_the_window() {
    let mut state = CoverState::new(vec![true, false, true, true, true, true, true, true]);
    let actions = state.refresh();
    assert_eq!(
        actions,
        vec![
            CoverAction::Load(0),
            CoverAction::Placeholder(1),
            CoverAction::Load(2),
            CoverAction::Load(6),
            CoverAction::Load(7),
        ]
    );
    // nothing more to do until something changes
    assert!(state.refresh().is_empty());
}

#[test]
fn moving_evicts_covers_that_left_the_window() {
    let mut state = CoverState::new(vec![true; 8]);
    state.refresh();
    assert!(state.apply_cover(0));
    assert!(state.apply_cover(1));
    assert!(state.apply_cover(2));
    let actions = state.set_current(4);
    assert_eq!(
        actions,
        vec![
            CoverAction::Evict(0),
            CoverAction::Evict(1),
            CoverAction::Load(3),
            CoverAction::Load(4),
            CoverAction::Load(5),
        ]
    );
}

#[test]
fn late_covers_outside_the_window_are_not_shown() {
    let mut state = CoverState::new(vec![true; 8]);
    state.refresh();
    state.set_current(4);
    // game 7 was loading but is no longer in the window
    assert!(!state.apply_cover(7));
    // game 4 is in the window and not shown yet
    assert!(state.apply_cover(4));
    // a second result for it is not shown again
    assert!(!state.apply_cover(4));
    // an index past the list is ignored
    assert!(!state.apply_cover(99));
}

#[test]
fn placeholder_hue_hashes_the_name() {
    assert_eq!(placeholder_hue("Sonic"), 148);
    assert_eq!(placeholder_hue("Sonic Adventure"), 76);
    assert_eq!(placeholder_hue("Zelda: Ocarina of Time"), 137);
    assert_eq!(placeholder_hue(""), 0);
    // UTF-8 bytes are hashed
    assert_eq!(placeholder_hue("ÿ"), 116);
}

#[test]
fn title_initial_is_the_upper_case_first_letter() {
    assert_eq!(title_initial("sonic"), "S");
    assert_eq!(title_initial("Zelda"), "Z");
    assert_eq!(title_initial("élan"), "É");
    assert_eq!(title_initial("ßeta"), "SS");
    assert_eq!(title_initial("1942"), "1");
    assert_eq!(title_initial(""), "");
}

use arkana::covers::decode_cover;

fn png_bytes(width: u32, height: u32) -> Vec<u8> {
    let img = image::RgbaImage::from_fn(width, height, |x, y| {
        image::Rgba([(x % 256) as u8, (y % 256) as u8, 7, 255])
    });
    let mut out = std::io::Cursor::new(Vec::new());
    img.write_to(&mut out, image::ImageFormat::Png).unwrap();
    out.into_inner()
}

#[test]
fn small_cover_is_decoded_unchanged() {
    let d = decode_cover("png", &png_bytes(3, 2)).unwrap();
    assert_eq!((d.width, d.height), (3, 2));
    assert_eq!(d.rgba.len(), 3 * 2 * 4);
    // pixel (2, 1)
    assert_eq!(&d.rgba[(1 * 3 + 2) * 4..(1 * 3 + 2) * 4 + 4], &[2, 1, 7, 255]);
    // the extension is read without regard to case
    assert!(decode_cover("PNG", &png_bytes(3, 2)).is_some());
}

#[test]
fn large_cover_is_scaled_to_fit() {
    let d = decode_cover("png", &png_bytes(1280, 640)).unwrap();
    assert_eq!((d.width, d.height), (640, 320));
    assert_eq!(d.rgba.len(), 640 * 320 * 4);
    let d = decode_cover("png", &png_bytes(100, 700)).unwrap();
    assert!(d.width <= 640 && d.height == 640);
    let d = decode_cover("png", &png_bytes(640, 640)).unwrap();
    assert_eq!((d.width, d.height), (640, 640));
}

#[test]
fn undecodable_covers_give_nothing() {
    assert!(decode_cover("png", b"not an image").is_none());
    assert!(decode_cover("txt", &png_bytes(2, 2)).is_none());
    assert!(decode_cover("", &png_bytes(2, 2)).is_none());
    // the format comes from the extension, not from the contents
    assert!(decode_cover("jpg", &png_bytes(2, 2)).is_none());
}
