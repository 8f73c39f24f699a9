//! The generator, the command line, the window, and what is said.

use forza_painter::backend::{run_auto_locate, run_diagnose, run_import, run_inspect, Located};
use forza_painter::cli::{flag, parse_command, parse_hex, profile_from_args, Command};
use forza_painter::device::Request;
use forza_painter::generate::{
    background_alpha, choose_profile, closing_text, count_scored_pixels, describe_mask,
    is_resizable, list_profiles, output_name, over_white, parse_profile, pass_at, pixel_cap,
    plan_work, settings_text, should_save, slot_dims, working_image, Kernel, Pass, Slot,
};
use forza_painter::gui::{
    choose_approach, first_preset, is_json_name, is_json_of_image, new_paths, newest_first,
    next_import, parse_layer_count, preview_due, saved_text, selected_game, selected_pid,
    template_info, Approach, DatedFile, Desk, Editor, Message,
};
use forza_painter::importer::StartError;
use forza_painter::layers::LayerLook;
use forza_painter::locator::{counts_to_try, Session};
use forza_painter::notices::Notice;
use forza_painter::procs::{find_game_processes, resolve_pid, GameProc};
use forza_painter::profiles::{
    all_profiles, get_profile, FH6_DISCOVERED_TABLE_POINTER_DELTA,
};
use forza_painter::table::Sample;
use forza_painter::winmem::{
    find_sub, is_private_writable, is_user_pointer, read_u16, read_u32, read_u64, MemoryInfo,
};

fn strings(v: &[&str]) -> Vec<String> {
    v.iter().map(|s| s.to_string()).collect()
}

#[test]
fn a_key_is_found_in_any_case() {
    assert_eq!(get_profile("FH6").unwrap().label, "Forza Horizon 6");
    assert_eq!(get_profile("fH5").unwrap().key, "fh5");
    assert!(get_profile("fh4").is_none());
    let keys: Vec<&str> = all_profiles().iter().map(|p| p.key).collect();
    assert_eq!(keys, vec!["fh6", "fh5"]);
    assert_eq!(FH6_DISCOVERED_TABLE_POINTER_DELTA, 0x1E);
}

#[test]
fn games_are_known_by_their_names() {
    let running = vec![
        (1, "explorer.exe".to_string()),
        (2, "FORZAHORIZON5.EXE".to_string()),
        (3, "forzahorizon6-win64-shipping.exe".to_string()),
    ];
    let found = find_game_processes(&running);
    let seen: Vec<(u32, &str)> =
        found.iter().map(|g| (g.pid, g.profile_key.as_str())).collect();
    assert_eq!(seen, vec![(2, "fh5"), (3, "fh6")]);
    assert_eq!(found[0].label(), "FORZAHORIZON5.EXE pid 2");
    assert_eq!(resolve_pid(&found, Some("fh6"), None), Some((3, "fh6".to_string())));
    assert_eq!(resolve_pid(&found, None, None), Some((2, "fh5".to_string())));
    assert_eq!(resolve_pid(&found, Some("fh9"), None), None);
    assert_eq!(resolve_pid(&found[..1].to_vec(), Some("fh6"), None), None);
    assert_eq!(resolve_pid(&found, None, Some(3)), Some((3, "fh6".to_string())));
    assert_eq!(resolve_pid(&found, Some("fh6"), Some(9)), Some((9, "fh6".to_string())));
    assert_eq!(resolve_pid(&found, None, Some(9)), None);
    assert_eq!(resolve_pid(&Vec::new(), Some("fh6"), None), None);
}

#[test]
fn memory_is_read_the_lowest_byte_first() {
    assert_eq!(find_sub(b"abcabd", b"abd"), Some(3));
    assert_eq!(find_sub(b"abc", b""), None);
    assert_eq!(find_sub(b"ab", b"abc"), None);
    assert_eq!(read_u16(&vec![0x34, 0x12]), 0x1234);
    assert_eq!(read_u32(&vec![4, 3, 2, 1]), 0x01020304);
    assert_eq!(read_u64(&vec![8, 7, 6, 5, 4, 3, 2, 1]), 0x0102030405060708);
    assert_eq!(read_u64(&vec![1, 2, 3]), 0);
    assert!(is_user_pointer(0x10000));
    assert!(!is_user_pointer(0xFFFF));
    assert!(is_user_pointer(0x7FFF_FFFF_FFFF));
    assert!(!is_user_pointer(0x8000_0000_0000));
    let info = |state: u32, protect: u32, kind: u32| {
        Some(MemoryInfo { base: 0, size: 1, state, protect, kind })
    };
    assert!(is_private_writable(0x20000, &info(0x1000, 0x40, 0x20000)));
    assert!(!is_private_writable(0x20000, &info(0x1000, 0x02, 0x20000)));
    assert!(!is_private_writable(0x20000, &info(0x2000, 0x04, 0x20000)));
    assert!(!is_private_writable(0x20000, &info(0x1000, 0x104, 0x20000)));
    assert!(!is_private_writable(0x20000, &info(0x1000, 0x04, 0x40000)));
    assert!(!is_private_writable(0x100, &info(0x1000, 0x04, 0x20000)));
    assert!(!is_private_writable(0x20000, &None));
}

#[test]
fn numbers_of_layers_are_tried_near_what_was_entered() {
    assert_eq!(counts_to_try(10), vec![10, 9, 11, 8, 12, 7, 13]);
    assert_eq!(counts_to_try(1), vec![1, 2, 3, 4]);
    assert_eq!(counts_to_try(0), vec![1, 2, 3]);
}

#[test]
fn settings_are_read_from_a_file() {
    let p = parse_profile(
        "# stopAt=1\r\n MAXRESOLUTION = 640 \r\nstopAt=+12\nstopAt=13\nrandomSamples=0\nposterizeLevels=999\nsaveEvery=x\nsaveAt= 5, 7 ,q,9\n",
    );
    assert_eq!(p.max_resolution, 640);
    assert_eq!(p.stop_at, 12);
    assert_eq!(p.random_samples, 1);
    assert_eq!(p.mutated_samples, 600);
    assert_eq!(p.posterize_levels, 256);
    assert_eq!(p.save_every, 50);
    assert_eq!(p.save_at, vec![5, 7, 9]);
    assert_eq!((p.transparent_bg, p.shape_alpha, p.shape_mode), (false, 255, 0));
    let d = parse_profile("");
    assert_eq!((d.max_resolution, d.random_samples, d.mutated_samples), (1000, 1500, 600));
    assert_eq!((d.posterize_levels, d.stop_at, d.save_every), (256, 3000, 50));
    assert!(d.save_at.is_empty());
    assert_eq!(parse_profile("posterizeLevels=1").posterize_levels, 2);
    assert_eq!(parse_profile("maxResolution=4294967297").max_resolution, 1);
    assert_eq!(
        settings_text(&d),
        "stopAt=3000 randomSamples=1500 mutatedSamples=600 maxResolution=1000 posterizeLevels=256"
    );
}

#[test]
fn settings_files_are_listed_in_order() {
    let names = strings(&["b.ini", "a.INI", ".ini", "B.ini", "a.ini", "ab.ini", "x.txt", "é.ini"]);
    assert_eq!(
        list_profiles(&names),
        strings(&["B.ini", "a.ini", "ab.ini", "b.ini", "é.ini"])
    );
    let mut sorted = list_profiles(&names);
    sorted.sort();
    assert_eq!(list_profiles(&names), sorted);
}

#[test]
fn a_settings_file_is_chosen_by_its_number() {
    let names = strings(&["_default.ini", "a.ini", "b.ini"]);
    assert_eq!(choose_profile(&names, " 3 \nrest"), 2);
    assert_eq!(choose_profile(&names, "4"), 0);
    assert_eq!(choose_profile(&names, "0"), 0);
    assert_eq!(choose_profile(&strings(&["a.ini", "_default.ini"]), "x"), 1);
    assert_eq!(choose_profile(&strings(&["a.ini", "b.ini"]), ""), 0);
}

#[test]
fn the_work_of_the_generator_is_planned() {
    let mut p = parse_profile("randomSamples=100000\nmutatedSamples=600\nstopAt=10\nsaveAt=7");
    let w = plan_work(&p);
    assert_eq!((w.random, w.candidates, w.rounds), (65535, 65535, 2));
    assert_eq!((w.result_bytes, w.shape_bytes), (65535 * 48, 480));
    let mut passes = Vec::new();
    let mut i = 0;
    while let Some(pass) = pass_at(&w, i) {
        passes.push(pass);
        i += 1;
    }
    let kernels: Vec<Kernel> = passes.iter().map(|p| p.kernel).collect();
    assert_eq!(
        kernels,
        vec![
            Kernel::Evaluate,
            Kernel::Reduce,
            Kernel::Advance,
            Kernel::Evaluate,
            Kernel::Reduce,
            Kernel::Advance,
            Kernel::Evaluate,
            Kernel::Reduce,
            Kernel::CommitArgs,
            Kernel::Commit,
            Kernel::EndShape,
        ]
    );
    assert_eq!(
        passes[3],
        Pass { kernel: Kernel::Evaluate, slot: Slot::EvaluateClimb, groups: Some(256) }
    );
    assert_eq!(passes[9].groups, None);
    let d = slot_dims(Slot::EvaluateRandom, 3, 4, &w);
    assert_eq!((d.w, d.h, d.candidates, d.climb), (3, 4, 65535, 0));
    assert_eq!(slot_dims(Slot::ReduceFold, 3, 4, &w).climb, 1);
    p.random_samples = 5;
    p.mutated_samples = 0;
    let w = plan_work(&p);
    assert_eq!((w.random, w.candidates, w.rounds), (5, 256, 1));
    assert_eq!(pixel_cap(1600, 3200), 100);
    assert_eq!(pixel_cap(u64::MAX, u64::MAX), 65535 * 64);
    p.save_every = 4;
    let saved: Vec<usize> = (1..=10).filter(|n| should_save(&p, *n)).collect();
    assert_eq!(saved, vec![4, 7, 8, 10]);
    assert_eq!(output_name("car", 50), "car_50.json");
}

#[test]
fn pixels_are_counted_and_resized() {
    let opaque = vec![10u8, 20, 30, 255, 0, 0, 0, 128, 0, 0, 0, 127, 1, 1, 1, 0];
    assert_eq!(count_scored_pixels(&opaque, true), 2);
    assert_eq!(count_scored_pixels(&opaque, false), 4);
    let same = working_image(opaque.clone(), 2, 2, 2, 2, true);
    assert_eq!((same.rgba, same.counted), (opaque.clone(), 2));
    let one = working_image(vec![40u8; 4 * 4 * 4], 4, 4, 2, 3, true);
    assert_eq!(one.rgba, vec![40u8; 2 * 3 * 4]);
    assert_eq!(one.counted, 0);
    let half = working_image(vec![0, 0, 0, 255, 255, 255, 255, 255], 2, 1, 1, 1, false);
    assert_eq!(half.rgba, vec![128, 128, 128, 255]);
    assert_eq!(
        describe_mask(true, 2, 4),
        strings(&[
            "Transparent mode ON: 2 / 4 px are subject (scored), 2 masked as background (bg alpha 0)."
        ])
    );
    assert_eq!(describe_mask(true, 4, 4).len(), 2);
    assert_eq!(
        describe_mask(false, 4, 4),
        strings(&["Transparent mode OFF (White): whole image is filled."])
    );
}

#[test]
fn half_opaque_is_the_limit() {
    for a in 0..=255u8 {
        let scored = a as f32 / 255.0 >= 0.5;
        assert_eq!(count_scored_pixels(&vec![0, 0, 0, a], true) == 1, scored);
    }
}

#[test]
fn colours_are_laid_over_white() {
    for c in 0..=255u8 {
        for alpha in 0..=255u8 {
            let a = alpha as f32 / 255.0;
            let mixed = (c as f32 * a + 255.0 * (1.0 - a)).round() as u8;
            assert_eq!(over_white(c, alpha), mixed, "{c} {alpha}");
        }
    }
}

#[test]
fn the_generator_says_how_the_result_is_used() {
    let mut p = parse_profile("");
    assert_eq!(background_alpha(&p), 255);
    assert_eq!(
        closing_text(&p, ""),
        "Opaque sticker: solid shapes, looks the same on any car colour."
    );
    p.shape_alpha = 128;
    assert_eq!(
        closing_text(&p, "0.10,0.20,0.30"),
        "Blended shapes (alpha 128): for a clean look set the car colour to HSV\n0.10,0.20,0.30\n(or use Background=Transparent / Opacity=255 to skip colour matching)."
    );
    p.transparent_bg = true;
    assert_eq!(background_alpha(&p), 0);
    assert_eq!(
        closing_text(&p, ""),
        "Transparent sticker: no background, no car-colour matching needed."
    );
}

#[test]
fn arguments_are_read() {
    let a = strings(&["p", "x", "--pid", "5", "--pid", "6", "--last"]);
    assert_eq!(flag(&a, "--pid"), Some("5".to_string()));
    assert_eq!(flag(&a, "--last"), None);
    assert_eq!(flag(&a, "--none"), None);
    assert_eq!(parse_hex(" 0x1F "), Some(31));
    assert_eq!(parse_hex("0XffFF"), Some(0xFFFF));
    assert_eq!(parse_hex("fff"), Some(0xFFF));
    assert_eq!(parse_hex("0x"), None);
    assert_eq!(parse_hex("xyz"), None);
    assert_eq!(parse_hex("10000000000000000"), None);
}

#[test]
fn commands_are_told_apart() {
    assert!(matches!(parse_command(&strings(&["p"])), Command::Window));
    assert!(matches!(parse_command(&strings(&["p", "generate"])), Command::Usage(_)));
    assert!(matches!(parse_command(&strings(&["p", "import"])), Command::Usage(_)));
    assert!(matches!(
        parse_command(&strings(&["p", "auto-locate", "--layer-count", "0"])),
        Command::Usage("usage: forza-painter auto-locate --layer-count K")
    ));
    match parse_command(&strings(&["p", "fly"])) {
        Command::Unknown(s) => assert_eq!(s, "fly"),
        _ => panic!("known"),
    }
    match parse_command(&strings(&["p", "generate", "a.png"])) {
        Command::Generate { image, profile } => {
            assert_eq!(image, "a.png");
            assert!(profile.is_none());
        }
        _ => panic!("no generation"),
    }
    match parse_command(&strings(&[
        "p", "import", "g.json", "--game", "fh5", "--pid", "12", "--count-address", "0x10",
        "--table-address", "20", "--layer-count", "500", "--edge-mask",
    ])) {
        Command::Import {
            json,
            game,
            pid,
            count_address,
            table_address,
            expected_count,
            edge_mask,
        } => {
            assert_eq!((json.as_str(), game.as_deref()), ("g.json", Some("fh5")));
            assert_eq!((pid, count_address, table_address), (Some(12), Some(16), Some(32)));
            assert_eq!((expected_count, edge_mask), (Some(500), true));
        }
        _ => panic!("no import"),
    }
    match parse_command(&strings(&["p", "auto-locate", "--layer-count", "7"])) {
        Command::AutoLocate { layer_count, .. } => assert_eq!(layer_count, 7),
        _ => panic!("no search"),
    }
    match parse_command(&strings(&["p", "diagnose", "--pid", "x"])) {
        Command::Diagnose { game, pid } => assert_eq!((game, pid), (None, None)),
        _ => panic!("no diagnosis"),
    }
}

#[test]
fn settings_are_read_from_arguments() {
    let p = profile_from_args(&strings(&[
        "p", "generate", "i", "--stop-at", " 20 ", "--opacity", "0", "--background",
        " TRANSPARENT", "--shapes", "mixed", "--posterize-levels", "1",
    ]));
    assert_eq!((p.stop_at, p.shape_alpha, p.transparent_bg), (20, 1, true));
    assert_eq!((p.shape_mode, p.posterize_levels), (2, 2));
    let p = profile_from_args(&strings(&["p", "--opacity", "999", "--shapes", "rect"]));
    assert_eq!((p.shape_alpha, p.shape_mode, p.transparent_bg), (255, 1, false));
}

#[test]
fn a_preset_reaches_the_generator() {
    let preset = parse_profile("maxResolution=512\nstopAt=77\nrandomSamples=9\nmutatedSamples=8\nposterizeLevels=6\nsaveEvery=5");
    let mut e = Editor::new();
    e.transparent = true;
    e.load_preset(&preset);
    assert_eq!(e.opacity, "255");
    let mut all = strings(&["p", "generate", "i.png"]);
    all.extend(e.generator_arguments());
    match parse_command(&all) {
        Command::Generate { profile: Some(q), .. } => {
            assert_eq!((q.max_resolution, q.stop_at, q.random_samples), (512, 77, 9));
            assert_eq!((q.mutated_samples, q.posterize_levels, q.save_every), (8, 6, 5));
            assert_eq!((q.transparent_bg, q.shape_alpha, q.shape_mode), (true, 255, 0));
        }
        _ => panic!("no generation"),
    }
    e.opacity = "7".to_string();
    e.load_preset(&preset);
    assert_eq!(e.opacity, "7");
    assert_eq!(first_preset(0), 0);
    assert_eq!(first_preset(2), 1);
    assert_eq!(first_preset(9), 2);
}

#[test]
fn the_log_is_bounded() {
    let mut d = Desk::new();
    for i in 0..4001 {
        d.apply(Message::Log(format!("{i}")));
    }
    assert_eq!(d.log.len(), 3001);
    assert_eq!(d.log[0], "1000");
    assert_eq!(d.log[3000], "4000");
}

#[test]
fn one_task_runs_at_a_time() {
    let mut d = Desk::new();
    assert_eq!(d.pill_text(), "Ready");
    assert!(d.start_task());
    assert_eq!(d.pill_text(), "Running");
    assert!(!d.start_task());
    assert_eq!(d.log, strings(&["Busy: another task is running."]));
    d.apply(Message::Status("Done".to_string()));
    d.apply(Message::Finished);
    assert_eq!(d.pill_text(), "Done");
    assert!(d.start_task());
}

fn located() -> Located {
    Located { pid: 5, count_address: 16, table_address: 32, layer_count: 100 }
}

#[test]
fn a_saved_location_is_used_where_it_fits() {
    let s = Some(located());
    assert_eq!(choose_approach("fh6", None, Some(103), s), (Approach::Saved(located()), false));
    assert_eq!(choose_approach("fh6", Some(5), Some(97), s), (Approach::Saved(located()), false));
    assert_eq!(choose_approach("fh6", Some(5), Some(104), s), (Approach::Locate(104), true));
    assert_eq!(choose_approach("fh6", Some(6), Some(100), s), (Approach::Locate(100), false));
    assert_eq!(choose_approach("fh6", None, None, s), (Approach::Direct, true));
    assert_eq!(choose_approach("fh6", None, None, None), (Approach::Direct, false));
    assert_eq!(choose_approach("fh5", None, Some(100), s), (Approach::Direct, false));
    assert_eq!(
        saved_text(&located()),
        "Using saved FH6 session: count=0x10 table=0x20 layers=100"
    );
    let t = template_info(s, Some(103));
    assert_eq!(
        (t.count_address, t.table_address, t.layer_count),
        (Some(16), Some(32), Some(100))
    );
    let t = template_info(None, Some(103));
    assert_eq!((t.count_address, t.table_address, t.layer_count), (None, None, Some(103)));
    assert_eq!(parse_layer_count(" 12 "), Some(12));
    assert_eq!(parse_layer_count("4294967296"), None);
}

#[test]
fn a_game_is_chosen_from_the_list() {
    let v = vec![GameProc {
        pid: 3,
        name: "n".to_string(),
        profile_key: "fh5".to_string(),
    }];
    assert_eq!(selected_pid(&v, 0), Some(3));
    assert_eq!(selected_pid(&v, 1), None);
    assert_eq!(selected_game(&v, 0), "fh5");
    assert_eq!(selected_game(&v, 1), "fh6");
}

#[test]
fn generated_files_are_listed_newest_first() {
    let f = |path: &str, seconds: u64| DatedFile { path: path.to_string(), seconds };
    let files = vec![f("a", 5), f("b", 9), f("c", 5), f("d", 9), f("d", 9), f("e", 0)];
    assert_eq!(newest_first(&files), vec![1, 3, 0, 2, 5]);
    assert!(is_json_name("x.json"));
    assert!(!is_json_name(".json"));
    assert!(!is_json_name("x.JSON"));
    assert!(is_json_of_image("car_50.json", "car"));
    assert!(!is_json_of_image("bus_50.json", "car"));
    assert!(!is_json_of_image("car_50.png", "car"));
}

#[test]
fn runs_start_with_the_game_that_is_meant() {
    let found = vec![GameProc {
        pid: 3,
        name: "n".to_string(),
        profile_key: "fh5".to_string(),
    }];
    let (pid, d) = run_diagnose(None, None, &found).unwrap();
    assert_eq!(pid, 3);
    assert!(matches!(d.request(), Some(Request::Base)));
    let (pid, l) = run_auto_locate(Some("fh5"), None, 9, &found).unwrap();
    assert_eq!(pid, 3);
    assert!(matches!(l.request(), Some(Request::Clock { attempt: 0, step: 0 })));
    let (pid, i) = run_inspect(None, Some(3), 0x5000, 30, &found).unwrap();
    assert_eq!(pid, 3);
    assert!(matches!(i.request(), Some(Request::Read(_))));
    assert!(run_auto_locate(None, None, 9, &Vec::new()).is_err());
    let text = "{\"shapes\":[{\"type\":8,\"data\":[0,0,1,1],\"color\":[1,1,1,1]}]}";
    let r = run_import(text, Some("fh5"), None, None, None, None, false, &found);
    assert_eq!(r.unwrap().unwrap().0, 3);
    let e = run_import(text, None, None, None, None, None, false, &found);
    assert!(matches!(e.unwrap().err().unwrap(), StartError::NoProcess));
    assert!(run_diagnose(Some("fh6"), None, &found).is_err());
    assert!(run_auto_locate(Some("fh6"), None, 9, &found).is_err());
    assert!(run_inspect(Some("fh6"), None, 0x5000, 30, &found).is_err());
    assert!(run_import("", None, None, None, None, None, false, &found).unwrap().is_err());
    let e = run_import(text, Some("fh4"), Some(1), None, None, None, false, &found);
    assert_eq!(e.unwrap().err().unwrap().text(), "Unsupported game 'fh4'");
}

#[test]
fn notices_are_put_into_words() {
    let p = get_profile("fh6").unwrap();
    let say = |n: Notice| n.text(&p, "A", "B");
    assert_eq!(
        say(Notice::BaseUnavailable),
        "Unable to open process. Try running as administrator. A"
    );
    assert_eq!(
        say(Notice::ScanningRange { offset: 0x0600_0000, size: 0x0200_0000 }),
        "Scanning Forza Horizon 6 Base+6000000..Base+8000000"
    );
    assert_eq!(
        say(Notice::SignatureAt { pattern: 0, offset: 0xAB }),
        "Signature 12 47 9b 13 29 d9 a2 b1 found at Base+ab"
    );
    assert_eq!(say(Notice::Mirror { equal: false }), "Validation mirror: FAILED");
    assert_eq!(say(Notice::GameRunning { pid: 7 }), "Forza Horizon 6 (pid 7)");
    assert_eq!(
        say(Notice::TemplateCount { count: 500, address: 0x10 }),
        "Using template layer count 500 (address 0x10)"
    );
    assert_eq!(say(Notice::WritingLayer { layer: 1, total: 100 }), "Writing layer 1/100");
    assert_eq!(
        say(Notice::BackgroundColor { r: 1, g: 2, b: 3 }),
        "The ideal background color for the car is:\nA"
    );
    assert_eq!(
        say(Notice::StoppedAfterHits),
        "Stopped FH6 scan after 200000 count hits."
    );
    let look = LayerLook {
        position: None,
        scale: Some((0, 0)),
        color: None,
        shape: Some(102),
        mask: None,
    };
    assert_eq!(
        say(Notice::TableSample { sample: Sample { index: 3, pointer: 0xFF, look } }),
        "  table[3] ptr=0xff score=2 scale=B; shape=102"
    );
    let session = Session {
        pid: 1,
        layer_count: 2,
        group_address: 3,
        count_address: 4,
        table_pointer_field: 5,
        table_address: 0x1F,
        score: -7,
    };
    assert_eq!(
        say(Notice::SavedSession { session }),
        "Saved FH6 session: layer_count=2 group=0x3 count=0x4 table=0x1f score=-7"
    );
}

#[test]
fn images_that_can_be_resized() {
    assert!(is_resizable(1, 1, 1, 1));
    assert!(is_resizable(4000, 3000, 1000, 750));
    assert!(!is_resizable(0, 3000, 1000, 750));
    assert!(!is_resizable(4000, 3000, 1000, 0));
    assert!(is_resizable(0x40_0000, 2, 2, 1));
    assert!(!is_resizable(0x40_0001, 2, 2, 1));
    assert!(is_resizable(0x40_0001, 2, 0x40_0001, 2));
    assert!(!is_resizable(u32::MAX, u32::MAX, u32::MAX, u32::MAX));
}

#[test]
fn idle_lines_change_no_settings() {
    let plain = parse_profile("stopAt=12\nsaveAt=5,7");
    let idle = parse_profile("# saveAt=1\nstopAt=12\n\n  \nno setting\nstopAt=99\nsaveAt=5,7\nother=3");
    assert_eq!(idle.stop_at, plain.stop_at);
    assert_eq!(idle.save_at, plain.save_at);
    assert_eq!(settings_text(&idle), settings_text(&plain));
}

#[test]
fn hexadecimal_numbers_are_read_back() {
    for n in [0, 9, 10, 0x1F, 0x1_4000_0000, u64::MAX] {
        assert_eq!(parse_hex(&format!("{n:x}")), Some(n));
        assert_eq!(parse_hex(&format!("0x{n:x}")), Some(n));
        assert_eq!(parse_hex(&format!("{n:X}")), Some(n));
        assert_eq!(parse_hex(&format!("\t 0X{n:X}\r\n")), Some(n));
    }
}

#[test]
fn imports_go_on_until_one_fails() {
    assert_eq!(next_import(&vec![], 0), None);
    assert_eq!(next_import(&vec![], 2), Some(0));
    assert_eq!(next_import(&vec![true], 2), Some(1));
    assert_eq!(next_import(&vec![true, true], 2), None);
    assert_eq!(next_import(&vec![false], 2), None);
}

#[test]
fn generated_files_are_told_from_those_before() {
    let before = strings(&["a.json", "b.json"]);
    let after = strings(&["c.json", "b.json", "d.json", "a.json"]);
    assert_eq!(new_paths(&before, &after), vec![0, 2]);
    assert!(new_paths(&after, &before).is_empty());
    assert!(preview_due(&after, "b.json"));
    assert!(!preview_due(&after, "c.json"));
    assert!(!preview_due(&Vec::new(), ""));
}
