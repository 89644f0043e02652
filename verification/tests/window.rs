use spoonstill_app::formats::SizeChoice;
use spoonstill_app::import::settings::{load, SettingsError, SettingsRead};
use spoonstill_app::ingest::{Copied, Ingested};
use spoonstill_app::subtitles::{preview_text, SAMPLE};
use spoonstill_app::window::{pretty_path, remember, resolve_output, RecentProject, RECENT_LIMIT};

fn entry(path: &str, at: u64) -> RecentProject {
    RecentProject { path: path.to_string(), name: path.rsplit('/').next().unwrap().to_string(), at }
}

#[test]
fn a_name_that_is_a_path_is_refused() {
    for name in ["a/b.mp4", "..\\b.mp4", "../out.mp4", ".hidden.mp4", "  "] {
        assert!(resolve_output("/tmp", name, true).is_err(), "{name:?} should not be accepted");
    }
}

#[test]
fn a_folder_whose_name_ends_in_a_space_is_still_that_folder() {
    for folder in ["/tmp/RANDOM vidoe ", "/tmp/ leading", "/tmp/  both  "] {
        let resolved = resolve_output(folder, "film", true).expect("resolves");
        assert_eq!(resolved, format!("{folder}/film.mp4"));
    }
}

#[test]
fn a_missing_folder_is_quoted_so_invisible_characters_are_visible() {
    let error = resolve_output("/tmp/spoonstill-no-such-folder ", "film.mp4", false).unwrap_err();
    assert_eq!(error, "\"/tmp/spoonstill-no-such-folder \" is not a folder");
}

#[test]
fn a_bare_name_gains_the_extension_it_was_always_going_to_have() {
    assert_eq!(resolve_output("/tmp", " holiday ", true), Ok("/tmp/holiday.mp4".to_string()));
    assert_eq!(resolve_output("/tmp/", "holiday.mov", true), Ok("/tmp/holiday.mov".to_string()));
}

#[test]
fn a_folder_that_is_not_there_is_named() {
    let error = resolve_output("/tmp/spoonstill-no-such-folder-9d2f1", "out.mp4", false).unwrap_err();
    assert!(error.contains("is not a folder"), "{error}");
    assert_eq!(resolve_output("", "out.mp4", false), Err("choose a folder to save the film into".to_string()));
    assert_eq!(resolve_output("/tmp", "", true), Err("the film needs a file name".to_string()));
    assert_eq!(
        resolve_output("/tmp", "a\\b", true),
        Err("a file name cannot contain a folder separator — choose the folder above".to_string())
    );
    assert_eq!(resolve_output("/tmp", "x..y", true), Err("\"x..y\" is not a file name".to_string()));
}

#[test]
fn the_opened_project_comes_first_and_only_once() {
    let list = vec![entry("/p/a", 1), entry("/p/b", 2), entry("/p/c", 3)];
    let after = remember(&list, "/p/b", "b", 9);
    assert_eq!(after, vec![entry("/p/b", 9), entry("/p/a", 1), entry("/p/c", 3)]);
}

#[test]
fn the_recent_list_keeps_only_the_newest() {
    let list: Vec<RecentProject> = (0..RECENT_LIMIT as u64).map(|n| entry(&format!("/p/{n}"), n)).collect();
    let after = remember(&list, "/p/new", "new", 100);
    assert_eq!(after.len(), RECENT_LIMIT);
    assert_eq!(after[0], entry("/p/new", 100));
    assert_eq!(after[RECENT_LIMIT - 1], entry(&format!("/p/{}", RECENT_LIMIT - 2), RECENT_LIMIT as u64 - 2));
}

#[test]
fn a_path_under_home_is_written_from_the_tilde() {
    assert_eq!(pretty_path("/Users/ana/films/demo", Some("/Users/ana")), "~/films/demo");
    assert_eq!(pretty_path("/Volumes/x/demo", Some("/Users/ana")), "/Volumes/x/demo");
    assert_eq!(pretty_path("/Users/ana/demo", None), "/Users/ana/demo");
    assert_eq!(pretty_path("/x", Some("")), "/x");
}

#[test]
fn a_size_reads_as_width_by_height() {
    let hd = SizeChoice {
        id: "1080p",
        aliases: vec![],
        description: "Full HD",
        short_edge: 1080,
        width: 1920,
        height: 1080,
        default: true,
    };
    assert_eq!(hd.dimensions(), "1920x1080");
}

#[test]
fn empty_text_falls_back_to_the_sample() {
    assert_eq!(preview_text(""), SAMPLE);
    assert_eq!(preview_text("   \n"), SAMPLE);
    assert_eq!(preview_text(" hello "), " hello ");
}

#[test]
fn a_missing_settings_file_is_the_defaults_and_a_huge_one_is_refused() {
    assert_eq!(load("/p", None, SettingsRead::Missing), Ok(None));
    assert_eq!(load("/p", Some(12), SettingsRead::Text("fps: 30\n".to_string())), Ok(Some("fps: 30\n".to_string())));
    assert_eq!(
        load("/p", Some(5 * 1024 * 1024), SettingsRead::Text(String::new())),
        Err(SettingsError::Malformed {
            path: "/p/project.yaml".to_string(),
            detail: "is 5 MB — a project's settings are a dozen lines, so this is some other file under that name"
                .to_string(),
        })
    );
    let unreadable = load("/p", None, SettingsRead::Unreadable("permission denied".to_string())).unwrap_err();
    assert_eq!(unreadable.message(), "could not read /p/project.yaml: permission denied");
}

#[test]
fn a_script_is_found_by_its_stills_stem() {
    let copied = |source: &str, name: &str| Copied { source: source.to_string(), name: name.to_string() };
    let report = Ingested {
        images: vec![copied("a.jpg", "001.jpg"), copied("b.jpg", "002.jpg")],
        audio: vec![],
        scripts: vec![copied("b.txt", "002.txt")],
        skipped: vec![],
        audio_without_image: 0,
        script_without_image: 0,
        image_without_audio: 1,
    };
    assert_eq!(report.script_for(&report.images[1]), Some(&report.scripts[0]));
    assert_eq!(report.script_for(&report.images[0]), None);
}

use spoonstill_app::import::settings::{resolve_plain, RawPlainSettings};
use spoonstill_app::import::{Problem, ProblemKind};

fn nothing_written() -> RawPlainSettings {
    RawPlainSettings {
        output: None,
        manifest: None,
        provider: None,
        voice: None,
        preset: None,
        crf: None,
        subtitles: None,
    }
}

#[test]
fn an_empty_file_is_every_default() {
    let (settings, problems) = resolve_plain(nothing_written());
    assert_eq!(settings.output, "out.mp4");
    assert_eq!(settings.manifest, None);
    assert_eq!(settings.provider, "edge");
    assert_eq!(settings.voice, "default");
    assert_eq!(settings.preset, "medium");
    assert_eq!(settings.crf, 18);
    assert!(!settings.subtitles);
    assert!(problems.is_empty());
}

#[test]
fn a_blank_value_means_the_default_and_a_named_one_is_trimmed() {
    let raw = RawPlainSettings {
        output: Some("  ".to_string()),
        manifest: Some(" rows.csv ".to_string()),
        voice: Some(" en-GB-RyanNeural ".to_string()),
        crf: Some(23),
        subtitles: Some(true),
        ..nothing_written()
    };
    let (settings, problems) = resolve_plain(raw);
    assert_eq!(settings.output, "out.mp4");
    assert_eq!(settings.manifest.as_deref(), Some("rows.csv"));
    assert_eq!(settings.voice, "en-GB-RyanNeural");
    assert_eq!(settings.crf, 23);
    assert!(settings.subtitles);
    assert!(problems.is_empty());
}

#[test]
fn a_quality_number_the_encoder_refuses_is_a_problem_not_a_value() {
    let (settings, problems) = resolve_plain(RawPlainSettings { crf: Some(52), ..nothing_written() });
    assert_eq!(settings.crf, 18);
    assert_eq!(
        problems,
        vec![Problem {
            scene: None,
            kind: ProblemKind::UnusableSetting {
                field: "encode.crf".to_string(),
                value: "52".to_string(),
                expected: "between 0 and 51 (D-036 uses 18)".to_string(),
            },
        }]
    );
    assert!(resolve_plain(RawPlainSettings { crf: Some(51), ..nothing_written() }).1.is_empty());
}

use spoonstill_app::import::settings::{named_resolution, RESOLUTION_TWICE};

fn unusable(value: &str, expected: &str) -> Problem {
    Problem {
        scene: None,
        kind: ProblemKind::UnusableSetting {
            field: "resolution".to_string(),
            value: value.to_string(),
            expected: expected.to_string(),
        },
    }
}

#[test]
fn resolution_and_short_edge_together_are_a_problem_not_a_precedence() {
    assert_eq!(
        named_resolution(Some(" 4k ".to_string()), Some(2160), true, "1080p, 1440p, 2160p"),
        (None, vec![unusable("4k", RESOLUTION_TWICE)])
    );
    assert_eq!(named_resolution(Some("4k".to_string()), Some(2160), false, "x"), (Some(2160), vec![]));
    assert_eq!(named_resolution(Some("  ".to_string()), None, true, "x"), (None, vec![]));
}

#[test]
fn an_unknown_resolution_names_the_ones_that_exist() {
    assert_eq!(
        named_resolution(Some("8k".to_string()), None, false, "720p, 1080p, 1440p, 2160p"),
        (None, vec![unusable("8k", "one of 720p, 1080p, 1440p, 2160p")])
    );
}

#[test]
fn a_blank_value_means_the_default() {
    let raw = RawPlainSettings {
        output: Some(String::new()),
        manifest: Some("  ".to_string()),
        ..nothing_written()
    };
    let (settings, _) = resolve_plain(raw);
    assert_eq!(settings.output, "out.mp4");
    assert_eq!(settings.manifest, None);
}

use spoonstill_app::formats::parse_size;
use spoonstill_app::import::settings::{geometry_problem, geometry_request, parsed_or_defaults};

#[test]
fn a_size_is_a_name_or_a_number() {
    let names = "720p, 1080p, 1440p, 2160p";
    assert_eq!(parse_size("4k", Some(2160), names), Ok(2160));
    assert_eq!(parse_size(" 2K ", Some(1440), names), Ok(1440));
    assert_eq!(parse_size("1080p", Some(1080), names), Ok(1080));
    assert_eq!(parse_size("900", None, names), Ok(900), "a number is still a short edge");
    let error = parse_size("enormous", None, names).unwrap_err();
    assert!(error.contains("2160p"), "{error}");
    assert!(error.contains("4k"), "{error}");
    assert_eq!(
        error,
        "\"enormous\" is not one of 720p, 1080p, 1440p, 2160p (2k and 4k are accepted too), nor a short edge in pixels"
    );
    assert!(parse_size("4294967296", None, names).is_err());
}

#[test]
fn a_blank_or_comment_only_file_is_every_default() {
    assert_eq!(parsed_or_defaults::<u32>("", Err("end of stream".to_string())), Ok(None));
    assert_eq!(parsed_or_defaults::<u32>("  \n\t", Err("end of stream".to_string())), Ok(None));
    assert_eq!(parsed_or_defaults("fps: 30", Ok(30u32)), Ok(Some(30)));
    assert_eq!(
        parsed_or_defaults::<u32>("apsect: 9:16", Err("unknown field `apsect`".to_string())),
        Err("unknown field `apsect`".to_string())
    );
}

#[test]
fn a_refused_geometry_blames_the_setting_that_changed() {
    let only_fps = geometry_request(None, None, Some(0), 1080, 30);
    assert_eq!((only_fps.short_edge, only_fps.fps, only_fps.field), (1080, 0, "fps"));
    let named = geometry_request(None, Some(2160), None, 1080, 30);
    assert_eq!((named.short_edge, named.fps, named.field), (2160, 30, "resolution"));
    let edge = geometry_request(Some(1081), None, Some(24), 1080, 30);
    assert_eq!((edge.short_edge, edge.fps, edge.field), (1081, 24, "short_edge"));

    let problem = geometry_problem(&edge, "16:9", "an even number");
    assert_eq!(
        problem,
        Problem {
            scene: None,
            kind: ProblemKind::UnusableSetting {
                field: "short_edge".to_string(),
                value: "1081 at 16:9, 24 fps".to_string(),
                expected: "an even number".to_string(),
            },
        }
    );
}
