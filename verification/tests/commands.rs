//! Names of files, bookmarks, the pen, keys, panels and dialogs.

use mud_sculpt::actions::{AppAction, AppSettings, HistoryStep, Key, Modifiers, SettingsDialogState, SettleDialogState, history_step, key_action, select_tool, toggle_magic_clay};
use mud_sculpt::bookmarks::{BookmarkRow, CameraBookmark, CameraBookmarks, MAX_CAMERA_BOOKMARKS, Pose, bookmark, bookmark_line, load_bookmarks, next_bookmark_name, parse_bookmark_line, save_bookmarks};
use mud_sculpt::desk::{ViewStep, WorkbenchGridState, dialog_action, view_action};
use mud_sculpt::panels::{Answer, FileDialogState, PrimitiveDialogState, UiReport, answer_settle, publish_ui_capture};
use mud_sculpt::paths::{FileEntry, finalise_export_path, finalise_save_path, finalise_typed_path, list_mudclay_in, newest_mudclay_in, text_ends_with};
use mud_sculpt::pen::{Force, PenState, TouchPhase, Turn, turn_of};
use mud_sculpt::preview::{GhostLook, GhostPlace, GhostShape, PreviewMeshState, Signature, ghost_is_turned, ghost_look, ghost_place, ghost_shape, prism_indices};
use mud_sculpt::sculpt::SculptStroke;
use mud_sculpt::timestamp::{is_leap, seconds_to_ymdhms, timestamped_filename};
use mud_sculpt::tool::{CutterFamily, CutterParams, MatcapPreset, PrimitiveShape, Profile, Resize, SculptTool, ToolKind, ViewPreset, clamp, short_label, tool_label, tool_palette_hint, tool_palette_order};
use mud_sculpt::vec3::BitVec3;

fn ymdhms(secs: u64) -> (u32, u32, u32, u32, u32, u32) {
    let t = seconds_to_ymdhms(secs);
    (t.year, t.month, t.day, t.hour, t.minute, t.second)
}

#[test]
fn epoch_zero_is_1970_01_01_00_00_00() {
    assert_eq!(ymdhms(0), (1970, 1, 1, 0, 0, 0));
}

#[test]
fn the_time_of_day_outlives_the_count_of_days() {
    assert_eq!(ymdhms(86400 * (1 << 32) + 3661), (1970, 1, 1, 1, 1, 1));
}

#[test]
fn known_timestamp_2026_07_13() {
    assert_eq!(ymdhms(1_783_900_800), (2026, 7, 13, 0, 0, 0));
}

#[test]
fn timestamp_after_leap_day_is_correct() {
    assert_eq!(ymdhms(1_709_296_496), (2024, 3, 1, 12, 34, 56));
}

const NOW: u64 = 1_709_296_496;

#[test]
fn empty_input_falls_back_to_timestamp() {
    let name = finalise_save_path("", NOW);
    assert!(name.starts_with("mud-sculpt-"));
    assert!(name.ends_with(".mudclay"));
    let ws = finalise_save_path("   \t", NOW);
    assert!(ws.starts_with("mud-sculpt-"));
    assert_eq!(ws, "mud-sculpt-20240301-123456.mudclay");
}

#[test]
fn extension_is_appended_when_missing() {
    assert_eq!(finalise_save_path("wolf-head", NOW), "wolf-head.mudclay");
    assert_eq!(finalise_save_path("  spaces  ", NOW), "spaces.mudclay");
}

#[test]
fn extension_is_kept_when_already_correct() {
    assert_eq!(finalise_save_path("wolf.mudclay", NOW), "wolf.mudclay");
}

#[test]
fn export_path_appends_stl_extension() {
    assert_eq!(finalise_export_path("wolf-head", NOW), "wolf-head.stl");
    assert_eq!(finalise_export_path("wolf.stl", NOW), "wolf.stl");
    let empty = finalise_export_path("", NOW);
    assert!(empty.starts_with("mud-sculpt-"));
    assert!(empty.ends_with(".stl"));
}

#[test]
fn non_mudclay_extension_is_treated_as_stem_and_appended() {
    assert_eq!(finalise_save_path("wolf.v3", NOW), "wolf.v3.mudclay");
    assert_eq!(
        finalise_save_path("mud-sculpt-20260714-104649.mudclayawolf-head", NOW),
        "mud-sculpt-20260714-104649.mudclayawolf-head.mudclay",
    );
}

fn pose(target: [f32; 3], distance: f32, yaw: f32, pitch: f32) -> Pose {
    Pose {
        target: BitVec3 {
            x: target[0].to_bits(),
            y: target[1].to_bits(),
            z: target[2].to_bits(),
        },
        distance: distance.to_bits(),
        yaw: yaw.to_bits(),
        pitch: pitch.to_bits(),
    }
}

fn numbers_of(pose: &Pose) -> Vec<String> {
    let t = pose.target;
    [t.x, t.y, t.z, pose.distance, pose.yaw, pose.pitch]
        .iter()
        .map(|&b| format!("{}", f32::from_bits(b)))
        .collect()
}

/// The bookmark that a row of texts stands for.
fn bookmark_of(row: BookmarkRow) -> Option<CameraBookmark> {
    let mut n = Vec::new();
    for text in &row.numbers {
        n.push(text.parse::<f32>().ok()?);
    }
    bookmark(row.name, pose([n[0], n[1], n[2]], n[3], n[4], n[5]))
}

fn same_bookmark(a: &CameraBookmark, b: &CameraBookmark) -> bool {
    a.name == b.name && a.pose == b.pose
}

#[test]
fn bookmark_round_trips_through_text_line() {
    let b = CameraBookmark {
        name: "Bookmark 1".to_string(),
        pose: pose([1.0, 45.0, -2.5], 300.0, 0.6, 0.35),
    };
    let line = "Bookmark 1\t1\t45\t-2.5\t300\t0.6\t0.35";
    assert_eq!(bookmark_line(&b.name, &numbers_of(&b.pose)), line);
    let row = parse_bookmark_line(line).expect("parse");
    let parsed = bookmark_of(row).expect("parse");
    assert!(same_bookmark(&parsed, &b));
}

#[test]
fn bookmark_list_round_trips_on_disk() {
    let slots = [
        CameraBookmark {
            name: "Bookmark 1".to_string(),
            pose: pose([0.0, 45.0, 0.0], 280.0, 1.0, 0.2),
        },
        CameraBookmark {
            name: "Bookmark 2".to_string(),
            pose: pose([10.0, 20.0, 30.0], 400.0, -0.5, 0.1),
        },
    ];
    let lines: Vec<String> =
        slots.iter().map(|b| bookmark_line(&b.name, &numbers_of(&b.pose))).collect();
    let stored = save_bookmarks(&lines);
    let rows = load_bookmarks(&stored);
    let loaded = CameraBookmarks::from_rows(rows.into_iter().map(bookmark_of).collect());
    assert_eq!(loaded.slots.len(), 2);
    assert!(same_bookmark(&loaded.slots[0], &slots[0]));
    assert!(same_bookmark(&loaded.slots[1], &slots[1]));
}

#[test]
fn save_current_prepends_and_caps() {
    let mut bookmarks = CameraBookmarks::new();
    let cam = pose([0.0, 0.0, 0.0], 200.0, 0.0, 0.0);
    for _ in 0..MAX_CAMERA_BOOKMARKS + 2 {
        bookmarks.save_current(cam);
    }
    assert_eq!(bookmarks.slots.len(), MAX_CAMERA_BOOKMARKS);
    assert_eq!(bookmarks.slots[0].name, format!("Bookmark {}", MAX_CAMERA_BOOKMARKS + 2));
}

#[test]
fn apply_to_copies_full_pose() {
    let mut bookmarks = CameraBookmarks::new();
    let saved = pose([3.0, 4.0, 5.0], 123.0, 0.7, -0.2);
    bookmarks.save_current(saved);
    let cam = bookmarks.pose(0).expect("a saved pose");
    assert_eq!(cam.target, saved.target);
    assert_eq!(cam.distance, saved.distance);
    assert_eq!(cam.yaw, saved.yaw);
    assert_eq!(cam.pitch, saved.pitch);
}

fn listing(files: &[(&str, i128)]) -> Vec<FileEntry> {
    files.iter().map(|(n, t)| FileEntry { name: n.to_string(), modified: *t }).collect()
}

#[test]
fn list_filters_by_extension_and_picks_up_hand_named_files() {
    let dir = listing(&[
        ("mud-sculpt-20260714-081500.mudclay", 5),
        ("wolf-head-v3.mudclay", 5),
        ("not-a-mudclay.txt", 5),
        ("random.stl", 5),
    ]);
    let list = list_mudclay_in(&dir);
    assert_eq!(list.len(), 2, "only .mudclay files count, txt/stl ignored");
    let names: Vec<&str> = list.iter().map(|&i| dir[i].name.as_str()).collect();
    assert!(names.contains(&"mud-sculpt-20260714-081500.mudclay"));
    assert!(names.contains(&"wolf-head-v3.mudclay"));
}

#[test]
fn list_returns_empty_when_directory_has_no_projects() {
    let dir = listing(&[("some-other.stl", 1)]);
    assert!(list_mudclay_in(&dir).is_empty());
    assert!(newest_mudclay_in(&dir).is_none());
}

#[test]
fn newest_returns_the_most_recently_modified() {
    let now = 100_000;
    let dir = listing(&[
        ("old.mudclay", now - 3600),
        ("recent.mudclay", now - 60),
        ("middle.mudclay", now - 600),
    ]);
    let newest = newest_mudclay_in(&dir).expect("should find one");
    assert_eq!(dir[newest].name, "recent.mudclay");
    let order: Vec<&str> = list_mudclay_in(&dir).iter().map(|&i| dir[i].name.as_str()).collect();
    assert_eq!(order, vec!["recent.mudclay", "middle.mudclay", "old.mudclay"]);
}

#[test]
fn light_pressure_scales_depth() {
    let pen = PenState { pressure: 0.25f32.to_bits(), altitude_rad: None, from_stylus: true };
    assert!((f32::from_bits(pen.depth_scale(true)) - 0.25).abs() < 1e-5);
    assert!((f32::from_bits(pen.depth_scale(false)) - 1.0).abs() < 1e-5);
}

/// The softer curve of the tools that displace, and how far a stylus leans.
fn engagement_scale(pen: &PenState, use_pressure: bool) -> f32 {
    if !use_pressure {
        return 1.0;
    }
    let p = f32::from_bits(pen.pressure).clamp(0.0, 1.0);
    (0.12 + 0.88 * p.powf(0.75)).clamp(0.12, 1.0)
}

fn lean_amount(pen: &PenState) -> f32 {
    let upright = std::f32::consts::FRAC_PI_2;
    match pen.altitude_rad {
        Some(a) => 1.0 - f32::from_bits(a).clamp(0.0, upright) / upright,
        None => 0.0,
    }
}

#[test]
fn mouse_default_is_full_depth() {
    let pen = PenState::default();
    assert!((f32::from_bits(pen.depth_scale(true)) - 1.0).abs() < 1e-5);
    assert!((engagement_scale(&pen, true) - 1.0).abs() < 1e-5);
    assert!(lean_amount(&pen) < 1e-5);
}

#[test]
fn dates_are_told_across_leap_years() {
    assert_eq!(ymdhms(951_827_696), (2000, 2, 29, 12, 34, 56));
    assert_eq!(ymdhms(4_107_542_400), (2100, 3, 1, 0, 0, 0));
    assert_eq!(ymdhms(86_399), (1970, 1, 1, 23, 59, 59));
    assert!(is_leap(2000) && is_leap(2024) && !is_leap(2100) && !is_leap(2023));
    assert_eq!(timestamped_filename("mud-sculpt-", ".stl", 0), "mud-sculpt-19700101-000000.stl");
}

#[test]
fn a_finished_name_stays_as_it_is() {
    let once = finalise_typed_path(" a.b ", ".mudclay", NOW);
    assert_eq!(once, "a.b.mudclay");
    assert_eq!(finalise_typed_path(&once, ".mudclay", NOW + 1), once);
    assert!(text_ends_with("wolf.stl", ".stl"));
    assert!(!text_ends_with("stl", ".stl"));
}

#[test]
fn lines_that_are_no_bookmarks_are_left_out() {
    assert!(parse_bookmark_line("").is_none());
    assert!(parse_bookmark_line("   ").is_none());
    assert!(parse_bookmark_line("# a comment\t1\t2\t3\t4\t5\t6").is_none());
    assert!(parse_bookmark_line("short\t1\t2\t3\t4\t5").is_none());
    let row = parse_bookmark_line("  x \t1\t2\t3\t4\t5\t6\t7 ").unwrap();
    assert_eq!(row.name, "x");
    assert_eq!(row.numbers, vec!["1", "2", "3", "4", "5", "6"]);
    let flat = pose([0.0, 0.0, 0.0], 0.0, 0.0, 0.0);
    assert!(bookmark("x".to_string(), flat).is_none());
    let endless = pose([0.0, 0.0, 0.0], f32::INFINITY, 0.0, 0.0);
    assert!(bookmark("x".to_string(), endless).is_none());
}

#[test]
fn tabs_and_line_ends_in_names_become_spaces() {
    let numbers: Vec<String> = ["1", "2", "3", "4", "5", "6"].iter().map(|s| s.to_string()).collect();
    let line = bookmark_line("a\tb\nc", &numbers);
    assert_eq!(line, "a b c\t1\t2\t3\t4\t5\t6");
    assert_eq!(parse_bookmark_line(&line).unwrap().name, "a b c");
    let stored = save_bookmarks(&vec![line.clone(), "# note".to_string(), line]);
    assert_eq!(load_bookmarks(&stored).len(), 2);
}

#[test]
fn bookmark_names_skip_those_that_are_taken() {
    let mut bookmarks = CameraBookmarks::new();
    let cam = pose([0.0, 0.0, 0.0], 200.0, 0.0, 0.0);
    bookmarks.save_current(cam);
    assert_eq!(bookmarks.slots[0].name, "Bookmark 1");
    bookmarks.slots[0].name = "Bookmark 2".to_string();
    assert_eq!(next_bookmark_name(&bookmarks.slots), "Bookmark 3");
    bookmarks.clear();
    assert!(bookmarks.pose(0).is_none());
}

#[test]
fn a_touch_with_force_is_a_stylus_until_it_ends() {
    let mut pen = PenState::default();
    let force = Force { pressure: 0.5f32.to_bits(), altitude_rad: Some(0.25f32.to_bits()) };
    pen.touch(TouchPhase::Started, Some(force));
    assert!(pen.from_stylus);
    assert_eq!(f32::from_bits(pen.depth_scale(true)), 0.5);
    pen.touch(TouchPhase::Moved, None);
    assert_eq!(f32::from_bits(pen.pressure), 0.5);
    pen.touch(TouchPhase::Ended, None);
    assert_eq!(pen, PenState::default());
    let light = Force { pressure: 0.01f32.to_bits(), altitude_rad: None };
    pen.touch(TouchPhase::Moved, Some(light));
    assert_eq!(f32::from_bits(pen.depth_scale(true)), 0.05);
    pen.touch(TouchPhase::Canceled, None);
    assert!(!pen.from_stylus);
    assert_eq!(turn_of(true, false, false), Turn::Left);
    assert_eq!(turn_of(false, true, false), Turn::Right);
    assert_eq!(turn_of(true, true, false), Turn::Still);
    assert_eq!(turn_of(true, false, true), Turn::Still);
}

fn with(ctrl: bool, shift: bool) -> Modifiers {
    Modifiers { ctrl, command: false, shift }
}

#[test]
fn keys_give_commands() {
    assert!(matches!(key_action(Key::S, with(false, false), false), Some(AppAction::ToggleSymmetry)));
    assert!(matches!(key_action(Key::S, with(true, false), false), Some(AppAction::SaveProject)));
    assert!(matches!(key_action(Key::S, with(true, true), false), Some(AppAction::ShowSaveAsDialog)));
    assert!(matches!(key_action(Key::E, with(true, false), false), Some(AppAction::ExportStl)));
    assert!(matches!(key_action(Key::G, with(true, false), false), Some(AppAction::RestPiecesOnBench)));
    assert!(matches!(key_action(Key::Escape, with(false, false), false), Some(AppAction::Quit)));
    assert!(key_action(Key::Escape, with(false, false), true).is_none());
    assert!(key_action(Key::Z, with(true, false), false).is_none());
    assert_eq!(history_step(Key::Z, with(true, false), false), Some(HistoryStep::Undo));
    assert_eq!(history_step(Key::Z, with(true, true), false), Some(HistoryStep::Redo));
    assert_eq!(history_step(Key::Y, with(true, false), false), Some(HistoryStep::Redo));
    assert_eq!(history_step(Key::Z, with(false, false), false), None);
    assert_eq!(history_step(Key::Z, with(true, false), true), None);
}

#[test]
fn the_palette_and_the_keys_agree() {
    let palette = tool_palette_order();
    assert_eq!(palette.len(), 13);
    let key_of = |c: char| match c {
        '0' => Key::Digit0,
        '1' => Key::Digit1,
        '2' => Key::Digit2,
        '3' => Key::Digit3,
        '4' => Key::Digit4,
        '5' => Key::Digit5,
        '6' => Key::Digit6,
        '7' => Key::Digit7,
        '8' => Key::Digit8,
        '9' => Key::Digit9,
        'K' => Key::K,
        'L' => Key::L,
        'P' => Key::P,
        _ => panic!("no key for {c}"),
    };
    for (c, kind) in palette {
        match key_action(key_of(c), with(false, false), false) {
            Some(AppAction::SelectTool(k)) => assert_eq!(k, kind),
            _ => panic!("{c} should take up a tool"),
        }
        assert!(!short_label(kind).is_empty());
        assert!(!tool_palette_hint(kind).is_empty());
    }
    assert_eq!(tool_label(ToolKind::Cutter(CutterFamily::Star5)), "cutter/star");
    assert_eq!(short_label(ToolKind::Clay), "Add/Remove");
    assert_eq!(
        tool_palette_hint(ToolKind::WireCutter),
        "Drag through the workpiece to slice.\nRelease completes the cut."
    );
}

#[test]
fn taking_another_tool_drops_the_stroke() {
    let mut tool = SculptTool::default();
    let mut stroke = SculptStroke::new();
    stroke.begin();
    select_tool(&mut tool, &mut stroke, ToolKind::Clay);
    assert!(stroke.recorder.is_some());
    select_tool(&mut tool, &mut stroke, ToolKind::Paddle);
    assert!(stroke.recorder.is_none());
    assert_eq!(tool.kind, ToolKind::Paddle);
    toggle_magic_clay(&mut tool);
    assert!(!tool.displace);
}

#[test]
fn tools_stay_within_their_sizes() {
    let b = f32::to_bits;
    let mut tool = SculptTool::default();
    tool.resize(Resize::Shrink(b(1.0)));
    assert_eq!(f32::from_bits(tool.size), 2.0);
    tool.resize(Resize::Grow(b(61.0)));
    assert_eq!(f32::from_bits(tool.size), 60.0);
    tool.resize(Resize::Scroll(b(33.0)));
    assert_eq!(f32::from_bits(tool.size), 33.0);
    assert_eq!(clamp(b(5.0), b(0.0), b(1.0)), b(1.0));
}

#[test]
fn cutters_have_the_outline_of_their_family() {
    let b = f32::to_bits;
    let mut params = CutterParams::default();
    let outline = |f: CutterFamily, p: CutterParams| f.profile(b(8.0), p, b(0.8), b(7.0));
    assert_eq!(outline(CutterFamily::Circle, params), Profile::Circle { radius: b(8.0) });
    assert_eq!(outline(CutterFamily::Square, params), Profile::Square { half_side: b(8.0) });
    params.wave_amp = b(0.1);
    params.wave_freq = b(50.0);
    params.corner_radius = b(9.0);
    assert_eq!(
        outline(CutterFamily::Circle, params),
        Profile::WavyCircle { radius: b(8.0), amp: b(0.8), freq: b(24.0) }
    );
    assert_eq!(
        outline(CutterFamily::Square, params),
        Profile::RoundedSquare { half_side: b(8.0), corner_r: b(7.0) }
    );
    assert_eq!(
        outline(CutterFamily::Star5, params),
        Profile::Star5 { outer: b(8.0), inner_ratio: b(0.4) }
    );
    assert_eq!(outline(CutterFamily::Hexagon, params).label(), "hexagon");
}

#[test]
fn one_dialog_is_open_at_a_time() {
    let mut files = FileDialogState::new();
    assert!(!files.any_open());
    files.show_save_as();
    files.show_export();
    assert!(files.save_as.is_none() && files.export_stl.is_some());
    files.export_stl = Some("wolf".to_string());
    match files.answer_export(Answer::Accept, NOW) {
        Some(AppAction::ExportStlAs(name)) => assert_eq!(name, "wolf.stl"),
        _ => panic!("the export should go ahead"),
    }
    assert!(!files.any_open());
    files.show_save_as();
    assert!(files.answer_save_as(Answer::Waiting, NOW).is_none());
    match files.answer_save_as(Answer::Accept, NOW) {
        Some(AppAction::SaveProjectAs(name)) => {
            assert_eq!(name, "mud-sculpt-20240301-123456.mudclay")
        }
        _ => panic!("the save should go ahead"),
    }
    files.show_open(vec!["a.mudclay".to_string(), "b.mudclay".to_string()]);
    assert!(files.answer_open(Answer::Accept).is_none());
    assert!(files.any_open());
    files.select_file(1);
    match files.answer_open(Answer::Accept) {
        Some(AppAction::OpenProject(name)) => assert_eq!(name, "b.mudclay"),
        _ => panic!("the project should be opened"),
    }
}

#[test]
fn answers_to_the_other_dialogs() {
    let mut prim = PrimitiveDialogState { open: None };
    prim.show();
    match prim.answer(Answer::Accept) {
        Some(AppAction::InsertPrimitive(shape, size)) => {
            assert_eq!(shape, PrimitiveShape::Sphere);
            assert_eq!(f32::from_bits(size), 20.0);
        }
        _ => panic!("the primitive should be inserted"),
    }
    assert!(prim.answer(Answer::Accept).is_none());
    let mut settle = SettleDialogState::default();
    settle.open = true;
    settle.plasticity = 3.0f32.to_bits();
    match answer_settle(&mut settle, Answer::Accept) {
        Some(AppAction::SettlePlastic(p)) => assert_eq!(f32::from_bits(settle.commit(p)), 1.0),
        _ => panic!("the clay should settle"),
    }
    assert!(!settle.open);
    let mut settings = SettingsDialogState::new();
    settings.show_tool();
    settings.show_preferences();
    assert!(settings.any_open());
    settings.close();
    assert!(!settings.any_open());
}

#[test]
fn an_open_dialog_takes_all_input() {
    let files = FileDialogState::new();
    let prim = PrimitiveDialogState { open: None };
    let mut settle = SettleDialogState::default();
    let settings = SettingsDialogState::new();
    let calm = UiReport {
        wants_pointer: false,
        pointer_over_area: false,
        wants_keyboard: false,
        any_popup_open: false,
    };
    let r = publish_ui_capture(&files, &prim, &settle, &settings, calm);
    assert!(!r.pointer && !r.keyboard);
    let popup = UiReport { any_popup_open: true, ..calm };
    let r = publish_ui_capture(&files, &prim, &settle, &settings, popup);
    assert!(!r.pointer && r.keyboard);
    settle.open = true;
    let r = publish_ui_capture(&files, &prim, &settle, &settings, calm);
    assert!(r.pointer && r.keyboard);
}

#[test]
fn ghosts_show_what_a_tool_would_do() {
    let sig = Signature { kind: ToolKind::Clay, size: 1200, corner: 0, wave_amp: 0, wave_freq: 600 };
    let mut state = PreviewMeshState { last: None };
    assert!(state.refresh(sig));
    assert!(!state.refresh(sig));
    assert!(state.refresh(Signature { size: 1300, ..sig }));
    assert_eq!(ghost_look(ToolKind::Paddle), GhostLook::Displace);
    assert_eq!(ghost_look(ToolKind::Pull), GhostLook::Draw);
    assert_eq!(ghost_look(ToolKind::Knife), GhostLook::Blade);
    assert_eq!(ghost_look(ToolKind::Clay), GhostLook::Plain);
    assert_eq!(ghost_place(ToolKind::Pull), GhostPlace::PressCentre);
    assert!(ghost_is_turned(ToolKind::Knife) && !ghost_is_turned(ToolKind::Smooth));
    assert_eq!(ghost_shape(ToolKind::WireCutter), GhostShape::Dot);
    assert_eq!(
        prism_indices(3)[..12],
        [0, 1, 4, 0, 4, 3, 1, 2, 5, 1, 5, 4]
    );
    assert_eq!(prism_indices(3).len(), 36);
    assert!(prism_indices(3).iter().all(|&i| i < 8));
}

#[test]
fn views_look_along_the_axes() {
    let (yaw, pitch) = ViewPreset::Front.yaw_pitch();
    assert_eq!((f32::from_bits(yaw), f32::from_bits(pitch)), (std::f32::consts::PI, 0.0));
    let (_, pitch) = ViewPreset::Top.yaw_pitch();
    assert_eq!(f32::from_bits(pitch), std::f32::consts::FRAC_PI_2 - 0.001);
    let (yaw, pitch) = ViewPreset::Perspective.yaw_pitch();
    assert_eq!((f32::from_bits(yaw), f32::from_bits(pitch)), (0.6, 0.35));
    let (yaw, _) = ViewPreset::Left.yaw_pitch();
    assert_eq!(f32::from_bits(yaw), -std::f32::consts::FRAC_PI_2);
    assert_eq!(ViewPreset::Top.label(), "Top");
    assert_eq!(MatcapPreset::all().len(), 4);
    assert_eq!(PrimitiveShape::Torus.label(), "Torus");
}

#[test]
fn commands_move_the_camera_and_the_bench_lines() {
    let here = Pose { target: BitVec3 { x: 1, y: 2, z: 3 }, distance: 4, yaw: 5, pitch: 6 };
    let mut lines = WorkbenchGridState::default();
    let mut bookmarks = CameraBookmarks::new();
    assert!(lines.visible);
    let step = view_action(&AppAction::ToggleWorkbenchGrid, here, &mut lines, &mut bookmarks);
    assert_eq!(step, ViewStep { pose: None, store: false });
    assert!(!lines.visible);
    view_action(&AppAction::SetWorkbenchGrid(true), here, &mut lines, &mut bookmarks);
    assert!(lines.visible);

    let step = view_action(&AppAction::SetView(ViewPreset::Front), here, &mut lines, &mut bookmarks);
    let front = Pose { yaw: std::f32::consts::PI.to_bits(), pitch: 0, ..here };
    assert_eq!(step.pose, Some(front));

    let step = view_action(&AppAction::SaveCameraBookmark, here, &mut lines, &mut bookmarks);
    assert!(step.store);
    assert_eq!(bookmarks.slots[0].name, "Bookmark 1");
    let back = AppAction::RestoreCameraBookmark(0);
    assert_eq!(view_action(&back, front, &mut lines, &mut bookmarks).pose, Some(here));
    let none = AppAction::RestoreCameraBookmark(1);
    assert_eq!(view_action(&none, front, &mut lines, &mut bookmarks).pose, None);
    let step = view_action(&AppAction::ClearCameraBookmarks, here, &mut lines, &mut bookmarks);
    assert!(step.store);
    assert!(bookmarks.slots.is_empty());
}

#[test]
fn commands_open_their_dialogs() {
    let mut files = FileDialogState::new();
    let mut primitive = PrimitiveDialogState { open: None };
    let mut settle = SettleDialogState::default();
    let mut settings = SettingsDialogState::new();
    let preferences = AppSettings { default_plasticity: 0.25f32.to_bits(), ..AppSettings::default() };
    let mut open = |action: AppAction| {
        let lists = dialog_action(
            &action,
            &mut files,
            &mut primitive,
            &mut settle,
            &mut settings,
            &preferences,
        );
        (lists, files.save_as.is_some(), files.export_stl.is_some(), primitive.open.is_some(), settle, settings)
    };
    assert!(open(AppAction::ShowOpenDialog).0);
    assert!(open(AppAction::ShowSaveAsDialog).1);
    let (lists, save_as, export, _, _, _) = open(AppAction::ShowExportStlDialog);
    assert!(!lists && !save_as && export);
    assert!(open(AppAction::ShowInsertPrimitiveDialog).3);
    let soft = open(AppAction::ShowSettleDialog).4;
    assert!(soft.open);
    assert_eq!(f32::from_bits(soft.plasticity), 0.25);
    assert!(open(AppAction::ShowToolSettingsDialog).5.tool_open);
    let both = open(AppAction::ShowPreferencesDialog).5;
    assert!(both.prefs_open && !both.tool_open);
    assert!(!open(AppAction::MergeDown).0);
}
