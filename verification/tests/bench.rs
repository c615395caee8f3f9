use voxels::bench::{
    config_filename, default_samples, queue_all, run_all_benchmarks, run_bench, BenchmarkFile, Mode,
    QueuedBenchmark, Session, Step,
};
use voxels::cli::{Action, Cli, Commands};
use voxels::frames::{CameraPose, FrameHistory, LiveFrames};
use voxels::live::{AfterEvent, Input, Key, KeysHeld, Move};
use voxels::names::{benchmark_names, not_after, stem};
use voxels::output::{
    check_chart_data, check_readback_fits, check_results_dir, frame_filename, ppm, readback_size,
    result_time, results_filename, results_filename_at, results_text,
};
use voxels::shader::{HISTORY_MOVED, HISTORY_NONE, HISTORY_STILL};

fn definition(frame_count: u32) -> BenchmarkFile {
    BenchmarkFile {
        scene: "main_fs".to_string(),
        frame_count,
        width: 640,
        height: 480,
        samples: 2,
        position: vec![[0; 3]; 4],
        look_at: vec![[1; 3]; 5],
    }
}

fn queued(name: &str, frame_count: u32) -> QueuedBenchmark {
    QueuedBenchmark {
        name: name.to_string(),
        def: definition(frame_count),
    }
}

fn camera(n: u32) -> CameraPose {
    CameraPose {
        pos: [n; 3],
        dir: [n + 1; 3],
        vup: [n + 2; 3],
    }
}

fn strings(texts: &[&str]) -> Vec<String> {
    texts.iter().map(|s| s.to_string()).collect()
}

#[test]
fn definitions_are_checked() {
    assert_eq!(default_samples(), 1);
    assert_eq!(config_filename("menger_sponge"), "menger_sponge.toml");
    assert!(BenchmarkFile::load("x", definition(1)).is_ok());
    let load = |def| BenchmarkFile::load("x", def).err();
    assert_eq!(
        load(definition(0)).as_deref(),
        Some("Benchmark x needs at least 1 frame")
    );
    let mut def = definition(1);
    def.samples = 0;
    def.position.clear();
    assert_eq!(
        load(def).as_deref(),
        Some("Benchmark x needs at least 1 sample per pixel")
    );
    let mut def = definition(1);
    def.position.truncate(3);
    def.look_at.truncate(0);
    assert_eq!(
        load(def).as_deref(),
        Some("Benchmark x needs at least 4 position points, got 3")
    );
    let mut def = definition(1);
    def.look_at.truncate(0);
    assert_eq!(
        load(def).as_deref(),
        Some("Benchmark x needs at least 4 look_at points, got 0")
    );
}

#[test]
fn runs() {
    let run = run_bench("a".to_string(), definition(3), true, true).ok().unwrap();
    assert_eq!(run.mode, Mode::Headless { save_frames: true });
    assert_eq!(run.benchmarks.len(), 1);
    assert_eq!(run.benchmarks[0].name, "a");
    assert_eq!(run.benchmarks[0].def.frame_count, 3);
    let run = run_bench("a".to_string(), definition(3), false, true).ok().unwrap();
    assert_eq!(run.mode, Mode::Window { ignores_save_frames: true });
    assert_eq!(
        run_bench("b".to_string(), definition(0), false, false).err().as_deref(),
        Some("Benchmark b needs at least 1 frame")
    );
    let read = |name: &str, frame_count| (name.to_string(), Ok(definition(frame_count)));
    let unread = |name: &str| (name.to_string(), Err(format!("Failed to read {name}")));
    let run = run_all_benchmarks(vec![read("a", 1), read("b", 2)], false, false)
        .ok()
        .unwrap();
    assert_eq!(run.mode, Mode::Window { ignores_save_frames: false });
    assert_eq!(run.benchmarks.len(), 2);
    assert_eq!(run.benchmarks[0].name, "a");
    assert_eq!(run.benchmarks[1].name, "b");
    assert_eq!(run.benchmarks[1].def.frame_count, 2);
    // The first failure in order counts, of reading or of the definition
    for (benchmarks, message) in [
        (vec![read("a", 1), read("b", 0), read("c", 0)], "Benchmark b needs at least 1 frame"),
        (vec![read("a", 1), read("b", 0), unread("c")], "Benchmark b needs at least 1 frame"),
        (vec![read("a", 1), unread("b"), read("c", 0)], "Failed to read b"),
    ] {
        assert_eq!(run_all_benchmarks(benchmarks, true, false).err().as_deref(), Some(message));
    }
    assert!(queue_all(vec![]).ok().unwrap().is_empty());
}

#[test]
fn a_session_renders_every_frame_of_every_benchmark() {
    let mut session = Session::new(vec![queued("a", 250), queued("b", 1), queued("c", 101)]);
    let mut rendered = Vec::new();
    let mut saved = Vec::new();
    loop {
        match session.next_step(true) {
            Step::Render { frame, save } => {
                assert!(!session.current_done());
                assert!(!session.resize(640, 480));
                let plan = session.begin_frame(camera(frame), false);
                assert_eq!(plan.frame, frame);
                assert_eq!(plan.samples, 2);
                if frame == 0 {
                    assert_eq!((plan.history, plan.prev), (HISTORY_NONE, camera(0)));
                } else {
                    assert_eq!((plan.history, plan.prev), (HISTORY_MOVED, camera(frame - 1)));
                }
                session.end_frame(7, 1000 + frame as u64, camera(frame));
                rendered.push((session.current.name.clone(), frame));
                if save {
                    saved.push((session.current.name.clone(), frame));
                }
            }
            Step::Finish => {
                assert!(session.current_done());
                for (i, record) in session.frame_records.iter().enumerate() {
                    assert_eq!(record.frame, i as u32);
                    assert_eq!(record.t, 7);
                    assert_eq!(record.time_us, 1000 + i as u64);
                    assert_eq!(record.camera, camera(i as u32));
                }
                if !session.finish_current() {
                    break;
                }
                assert!(session.frame_records.is_empty());
                assert!(session.history.prev_camera.is_none());
            }
        }
    }
    assert_eq!(rendered.len(), 250 + 1 + 101);
    let expected: Vec<(String, u32)> = [
        ("a", 0),
        ("a", 100),
        ("a", 200),
        ("a", 249),
        ("b", 0),
        ("c", 0),
        ("c", 100),
    ]
    .iter()
    .map(|&(name, frame)| (name.to_string(), frame))
    .collect();
    assert_eq!(saved, expected);
    // The last benchmark stays where it is
    assert_eq!(session.current.name, "c");
    assert!(!session.finish_current());
}

#[test]
fn frames_are_saved_only_if_asked_for() {
    let session = Session::new(vec![queued("a", 5)]);
    assert_eq!(session.size(), (640, 480));
    assert_eq!(session.next_step(true), Step::Render { frame: 0, save: true });
    assert_eq!(session.next_step(false), Step::Render { frame: 0, save: false });
}

#[test]
fn a_new_size_loses_the_history() {
    let mut session = Session::new(vec![queued("a", 5)]);
    session.begin_frame(camera(1), false);
    session.end_frame(0, 0, camera(1));
    assert_eq!(session.history.accumulation.bind_group(), 1);
    let plan = session.begin_frame(camera(1), true);
    assert_eq!((plan.history, plan.prev), (HISTORY_STILL, camera(1)));
    assert!(session.resize(641, 480));
    assert_eq!(session.history.accumulation.size, (641, 480));
    assert_eq!(session.history.accumulation.bind_group(), 0);
    let plan = session.begin_frame(camera(3), false);
    assert_eq!((plan.frame, plan.history), (1, HISTORY_NONE));
    let mut history = FrameHistory::new(8, 8);
    assert_eq!(history.begin_frame(camera(2), true), (HISTORY_NONE, camera(2)));
    history.end_frame();
    assert_eq!(history.begin_frame(camera(3), false), (HISTORY_MOVED, camera(2)));
    history.forget();
    assert_eq!(history.begin_frame(camera(4), false), (HISTORY_NONE, camera(4)));
    assert_eq!(history.accumulation.bind_group(), 1);
}

#[test]
fn live_frames_are_numbered_without_end() {
    let mut frames = LiveFrames::new(8, 8);
    for n in 0..3 {
        let plan = frames.begin_frame(camera(n), false, 4);
        let expected = if n == 0 { HISTORY_NONE } else { HISTORY_MOVED };
        assert_eq!((plan.frame, plan.history, plan.samples), (n, expected, 4));
        frames.end_frame();
    }
    assert!(frames.history.resize(9, 9));
    assert_eq!(frames.begin_frame(camera(3), true, 1).frame, 3);
    frames.count = u32::MAX;
    frames.end_frame();
    assert_eq!(frames.count, 0);
}

#[test]
fn names_come_from_toml_files_in_order() {
    let files = strings(&["b.toml", "readme.md", "a.toml", ".toml", "a.b.toml", "toml", "Z.toml", "é.toml", "c.TOML"]);
    assert_eq!(
        benchmark_names(&files).ok(),
        Some(strings(&["Z", "a", "a.b", "b", "é"]))
    );
    assert_eq!(
        benchmark_names(&strings(&["a.txt"])).err().as_deref(),
        Some("No benchmark files found in bench/configs/ directory")
    );
    assert_eq!(stem(".toml"), None);
    assert_eq!(stem("x.toml").as_deref(), Some("x"));
    assert_eq!(stem("..toml").as_deref(), Some("."));
}

#[test]
fn texts_are_ordered_as_strings_are() {
    let texts = ["", "a", "ab", "b", "B", "é", "z", "\u{ffff}", "\u{10000}", "a\u{10000}"];
    for a in texts {
        for b in texts {
            assert_eq!(not_after(a, b), a <= b, "{a:?} {b:?}");
        }
    }
}

#[test]
fn times_and_file_names() {
    assert_eq!(result_time(1431648000).as_deref(), Some("2015-05-15T00:00:00Z"));
    assert_eq!(result_time(0).as_deref(), Some("1970-01-01T00:00:00Z"));
    assert_eq!(result_time(i64::MAX), None);
    assert_eq!(
        results_filename(1431648001, "menger").as_deref(),
        Some("2015-05-15-00-00-01-menger.jsonl")
    );
    assert_eq!(results_filename(i64::MIN, "menger"), None);
    assert_eq!(results_filename_at("now", "x"), "now-x.jsonl");
    assert_eq!(frame_filename("menger_sponge", 200), "menger_sponge-0200.ppm");
    assert_eq!(frame_filename("m", 0), "m-0000.ppm");
    assert_eq!(frame_filename("m", 12345), "m-12345.ppm");
}

#[test]
fn results_are_lines() {
    assert_eq!(results_text("{}", &vec![]), "{}\n");
    assert_eq!(
        results_text("meta", &strings(&["one", "two"])),
        "meta\none\ntwo\n"
    );
}

#[test]
fn images_drop_padding_and_alpha() {
    assert_eq!(readback_size(2, 3), (256, 768));
    assert_eq!(readback_size(64, 1), (256, 256));
    assert_eq!(readback_size(65, 2), (512, 1024));
    assert!(check_readback_fits(1920, 1080));
    assert!(check_readback_fits(0x3FFF_FFC0 - 1, 1));
    assert!(!check_readback_fits(0x4000_0000, 1));
    assert!(!check_readback_fits(u32::MAX, 0));
    assert!(!check_readback_fits(0x1000_0000, 4));

    let mut mapped = vec![0u8; 512];
    mapped[0..8].copy_from_slice(&[1, 2, 3, 255, 4, 5, 6, 255]);
    mapped[256..264].copy_from_slice(&[7, 8, 9, 255, 10, 11, 12, 255]);
    let mut expected = b"P6\n2 2\n255\n".to_vec();
    expected.extend([3, 2, 1, 6, 5, 4, 9, 8, 7, 12, 11, 10]);
    assert_eq!(ppm(2, 2, &mapped), expected);
    assert_eq!(ppm(10, 0, &[]), b"P6\n10 0\n255\n".to_vec());
}

#[test]
fn a_chart_needs_results() {
    assert!(check_results_dir(true).is_ok());
    assert_eq!(
        check_results_dir(false).err().as_deref(),
        Some("bench/results/ directory not found. Run some benchmarks first.")
    );
    assert!(check_chart_data(1).is_ok());
    assert_eq!(
        check_chart_data(0).err().as_deref(),
        Some("No benchmark data found in bench/results/")
    );
}

#[test]
fn keys_move_while_held() {
    let character = |c: &str| Key::Character(c.to_string());
    let mut input = Input::new();
    assert_eq!(input.keys_held, KeysHeld::default());
    assert!(input.keys_held.moves().is_empty());
    for c in ["d", "A", "c", "W", "s"] {
        input.key(&character(c), true);
    }
    input.key(&Key::Space, true);
    assert_eq!(
        input.keys_held.moves(),
        vec![Move::Forward, Move::Backward, Move::Left, Move::Right, Move::Up, Move::Down]
    );
    input.key(&character("w"), false);
    input.key(&character("S"), false);
    input.key(&Key::Space, false);
    assert_eq!(
        input.keys_held.moves(),
        vec![Move::Left, Move::Right, Move::Down]
    );
    input.key(&character("wa"), true);
    input.key(&Key::Other, true);
    assert_eq!(input.keys_held.moves().len(), 3);
    assert_eq!(input.after_event(), AfterEvent::Redraw);
    input.close_key(&character("w"), true);
    assert_eq!(input.keys_held.moves().len(), 3);
}

#[test]
fn escape_and_q_close() {
    for (key, closes) in [
        (Key::Escape, true),
        (Key::Character("q".to_string()), true),
        (Key::Character("Q".to_string()), true),
        (Key::Character("w".to_string()), false),
        (Key::Space, false),
        (Key::Other, false),
    ] {
        for pressed in [false, true] {
            let mut input = Input::new();
            input.key(&key, pressed);
            assert_eq!(input.close_requested, closes && pressed);
            let mut input = Input::new();
            input.close_key(&key, pressed);
            assert_eq!(input.close_requested, closes && pressed);
        }
    }
    let mut input = Input::new();
    input.close();
    input.key(&Key::Escape, false);
    assert_eq!(input.after_event(), AfterEvent::Exit);
}

#[test]
fn arguments_say_what_to_do() {
    let action = |command| Cli { command }.action();
    assert!(matches!(action(None), Action::Live { samples: 1 }));
    assert!(matches!(
        action(Some(Commands::Live { samples: 4 })),
        Action::Live { samples: 4 }
    ));
    assert!(matches!(
        action(Some(Commands::Bench { name: None, headless: true, save_frames: false })),
        Action::RunAllBenchmarks { headless: true, save_frames: false }
    ));
    let one = action(Some(Commands::Bench {
        name: Some("x".to_string()),
        headless: false,
        save_frames: true,
    }));
    assert!(matches!(
        one,
        Action::RunBench { name, headless: false, save_frames: true } if name == "x"
    ));
    assert!(matches!(action(Some(Commands::Chart)), Action::Chart));
}
