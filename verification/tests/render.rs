use voxels::gpu::{
    accum_buffer_size, check_image_fits, storage_contents, Accumulation, PIXEL_WORDS,
};
use voxels::shader::{
    corner, gen_state, history_source, history_tap, material, pack_surface, sample_count,
    store_pixel, tap_positions, History, Material, Path, PathStep, Pixel, HISTORY_MOVED,
    HISTORY_NONE, HISTORY_STILL, MAX_BOUNCES,
};

fn pixel(n: u32) -> Pixel {
    Pixel {
        color: (n, n + 1, n + 2),
        count: n + 3,
        pos: (n + 4, n + 5, n + 6),
        surface: n + 7,
    }
}

#[test]
fn storage_holds_the_memory_of_the_words() {
    let words = [0x0403_0201u32, 0x0807_0605];
    let mut expected = Vec::new();
    for word in words {
        expected.extend(word.to_ne_bytes());
    }
    assert_eq!(storage_contents(&words), expected);
    assert!(storage_contents(&[]).is_empty());
}

#[test]
fn accumulation_buffers_hold_eight_words_per_pixel() {
    assert_eq!(PIXEL_WORDS, 8);
    assert_eq!(accum_buffer_size(1920, 1080), 1920 * 1080 * 8 * 4);
    assert_eq!(accum_buffer_size(0, 1080), 0);
    assert!(check_image_fits(1920, 1080));
    assert!(check_image_fits(0, u32::MAX));
    assert!(check_image_fits(0x1FFF_FFFF, 1));
    assert!(!check_image_fits(0x2000_0000, 1));
    assert!(!check_image_fits(u32::MAX, u32::MAX));
}

#[test]
fn each_frame_reads_what_the_last_one_wrote() {
    let mut accumulation = Accumulation::new(640, 480);
    assert_eq!(accumulation.size, (640, 480));
    assert_eq!(accumulation.bind_group(), 0);
    let mut written = None;
    for _ in 0..5 {
        let (history, accum) = Accumulation::bindings(accumulation.bind_group());
        assert_ne!(history, accum);
        if let Some(last) = written {
            assert_eq!(history, last);
        }
        written = Some(accum);
        accumulation.swap();
    }
    assert_eq!(accumulation.bind_group(), 1);
    assert_eq!(accumulation.size, (640, 480));
}

#[test]
fn the_triangle_covers_the_screen() {
    assert_eq!(corner(0), (-1, 1));
    assert_eq!(corner(1), (3, 1));
    assert_eq!(corner(2), (-1, -3));
    assert_eq!(corner(3), (3, -3));
    assert_eq!(corner(4), (-1, 1));
    assert_eq!(corner(-1), (3, -3));
    assert_eq!(corner(i32::MIN), (-1, 1));
}

#[test]
fn pixels_and_frames_have_seeds_of_their_own() {
    // Written out once, in 64 bits
    let seed = |x: u64, y: u64, frame: u64| {
        let state = (x * 747796405 + y + frame * 2654435761) & 0xFFFF_FFFF;
        let word = (((state >> ((state >> 28) + 4)) ^ state) * 277803737) & 0xFFFF_FFFF;
        ((word >> 22) ^ word) as u32
    };
    assert_eq!(gen_state(0, 0, 0), 0);
    for (x, y, frame) in [(1, 0, 0), (0, 1, 0), (0, 0, 1), (1919, 1079, 1_000_000)] {
        assert_eq!(gen_state(x, y, frame), seed(x as u64, y as u64, frame as u64));
    }
    assert_ne!(gen_state(1, 0, 0), gen_state(0, 1, 0));
    assert_ne!(gen_state(5, 5, 1), gen_state(5, 5, 2));
}

#[test]
fn materials() {
    assert_eq!(material(0), Material::Unknown);
    assert_eq!(material(1), Material::Grass);
    assert_eq!(material(2), Material::Wood);
    assert_eq!(material(3), Material::Stone);
    assert_eq!(material(4), Material::Red);
    assert_eq!(material(5), Material::Unknown);
    assert_eq!(material(u32::MAX), Material::Unknown);
}

#[test]
fn a_path_scatters_only_so_often() {
    let mut path = Path::new();
    assert_eq!(path.traced(false), PathStep::Sky { first: true });
    for bounce in 0..MAX_BOUNCES {
        assert!(path.goes_on());
        assert_eq!(
            path.traced(true),
            PathStep::Surface { first: bounce == 0, roulette: bounce >= 3 }
        );
        path.scatter();
    }
    assert!(!path.goes_on());
    assert_eq!(path.traced(false), PathStep::Sky { first: false });
}

#[test]
fn at_least_one_sample() {
    assert_eq!(sample_count(0), 1);
    assert_eq!(sample_count(1), 1);
    assert_eq!(sample_count(4), 4);
}

#[test]
fn surfaces() {
    assert_eq!(pack_surface(false, [1, 0, 0], 3), 0);
    assert_eq!(pack_surface(true, [1, 0, 0], 3), 0x8000_0300);
    assert_eq!(pack_surface(true, [-1, 0, 0], 3), 0x8000_0301);
    assert_eq!(pack_surface(true, [0, 1, 0], 3), 0x8000_0302);
    assert_eq!(pack_surface(true, [0, -1, 0], 3), 0x8000_0303);
    assert_eq!(pack_surface(true, [0, 0, 1], 3), 0x8000_0304);
    assert_eq!(pack_surface(true, [0, 0, -1], 3), 0x8000_0305);
    assert_eq!(pack_surface(true, [0, 0, 0], 0), 0x8000_0005);
    // Only the low eight bits of the value are kept
    assert_eq!(pack_surface(true, [0, 1, 0], 0x1FF), 0x8000_FF02);
    assert_ne!(
        pack_surface(true, [0, 1, 0], 1),
        pack_surface(true, [0, 1, 0], 2)
    );
}

#[test]
fn pixels_are_stored_side_by_side() {
    let (width, height) = (3, 2);
    let mut accum = vec![0u32; 3 * 2 * 8];
    for y in 0..height {
        for x in 0..width {
            store_pixel(&mut accum, width, height, x, y, pixel(100 * (x + 3 * y)));
        }
    }
    for i in 0..6 {
        for k in 0..8 {
            assert_eq!(accum[i * 8 + k], (100 * i + k) as u32);
        }
    }
    store_pixel(&mut accum, width, height, 1, 1, pixel(7));
    for y in 0..height {
        for x in 0..width {
            let expected = if (x, y) == (1, 1) { 7 } else { 100 * (x + 3 * y) };
            assert_eq!(
                history_source(HISTORY_STILL, &accum, width, height, x, y),
                History::Own(pixel(expected))
            );
        }
    }
    assert_eq!(
        history_source(HISTORY_NONE, &accum, width, height, 0, 0),
        History::Nothing
    );
    assert_eq!(
        history_source(HISTORY_MOVED, &accum, width, height, 0, 0),
        History::Reproject
    );
}

#[test]
fn taps_count_only_if_they_saw_the_same_surface() {
    let mut history = vec![0u32; 2 * 2 * 8];
    store_pixel(&mut history, 2, 2, 1, 0, pixel(50));
    assert_eq!(history_tap(&history, 2, 2, 1, 0, true, 57), Some(pixel(50)));
    assert_eq!(history_tap(&history, 2, 2, 1, 0, true, 58), None);
    assert_eq!(history_tap(&history, 2, 2, 1, 0, false, 57), None);
    assert_eq!(history_tap(&history, 2, 2, -1, 0, true, 0), None);
    assert_eq!(history_tap(&history, 2, 2, 0, -1, true, 0), None);
    assert_eq!(history_tap(&history, 2, 2, 2, 0, true, 0), None);
    assert_eq!(history_tap(&history, 2, 2, 0, 2, true, 0), None);
    assert!(history_tap(&history, 2, 2, 0, 1, true, 0).is_some());
    assert_eq!(tap_positions(-1, 5), [(-1, 5), (0, 5), (-1, 6), (0, 6)]);
    // Nothing is read where nothing is asked for
    assert_eq!(history_tap(&[], 2, 2, 1, 0, false, 57), None);
    assert_eq!(history_tap(&[], 2, 2, 2, 0, true, 57), None);
    assert_eq!(history_source(HISTORY_NONE, &[], 2, 2, 0, 0), History::Nothing);
    assert_eq!(history_source(HISTORY_MOVED, &[], 2, 2, 0, 0), History::Reproject);
    // Past the last coordinate there is no image
    for (x, y) in tap_positions(i32::MAX, i32::MAX) {
        assert_eq!(history_tap(&history, 2, 2, x, y, true, 0), None);
    }
}
