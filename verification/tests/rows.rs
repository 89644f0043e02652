use spoonstill_app::import::rows::{
    convention_drafts, from_manifest, group_files, manifest_path, parses_as_float, read_line,
    rows_source, ManifestRow, Mode, RowSource, Rows, RowsError,
};
use spoonstill_app::import::{
    order_by_scene, probe_jobs_for, unlisted_images, DurationCell, Problem, ProblemKind, RootFile,
    SceneDraft,
};

/// A convention-mode folder of `(name, contents)`, collected the way a
/// project folder is: grouped by stem, each paired script read.
fn collect_folder(files: &[(&str, &str)]) -> Rows {
    let names: Vec<String> = files.iter().map(|(n, _)| n.to_string()).collect();
    let groups = group_files(&names);
    let reads: Vec<Option<Result<String, String>>> = groups
        .iter()
        .map(|g| match (&g.image, &g.text) {
            (Some(_), Some(text)) => {
                let contents = files.iter().find(|(n, _)| n == text).map(|(_, c)| *c).unwrap();
                Some(read_line(Ok(contents.as_bytes().to_vec())))
            }
            _ => None,
        })
        .collect();
    let (drafts, problems) = convention_drafts(&groups, &reads);
    Rows { mode: Mode::Convention, drafts, problems }
}

/// A manifest's records read, every row's id one a scene may have.
fn read_records(path: &str, records: Vec<Result<ManifestRow, String>>) -> Result<Rows, RowsError> {
    let accepted = vec![true; records.len()];
    from_manifest(path, records, &accepted)
}

fn ids(rows: &Rows) -> Vec<&str> {
    rows.drafts.iter().map(|d| d.id.as_str()).collect()
}

fn row(image: &str) -> ManifestRow {
    ManifestRow {
        image: image.to_string(),
        text: None,
        audio_file: None,
        voice: None,
        duration: None,
        zoom_direction: None,
        zoom_anchor: None,
    }
}

fn timed(image: &str, duration: &str) -> ManifestRow {
    ManifestRow { duration: Some(duration.to_string()), ..row(image) }
}

#[test]
fn convention_mode_pairs_by_stem() {
    let rows = collect_folder(&[
        ("001.png", ""),
        ("001.txt", "the first line"),
        ("002.png", ""),
        ("002.mp3", ""),
        ("003.png", ""),
    ]);
    assert_eq!(rows.mode, Mode::Convention);
    assert_eq!(ids(&rows), vec!["001", "002", "003"]);
    assert_eq!(rows.drafts[0].text.as_deref(), Some("the first line"));
    assert_eq!(rows.drafts[0].audio, None);
    assert_eq!(rows.drafts[1].audio.as_deref(), Some("002.mp3"));
    assert_eq!(rows.drafts[1].text, None);
    assert_eq!(rows.drafts[2].duration, DurationCell::ProjectDefault);
    assert!(rows.problems.is_empty(), "{:?}", rows.problems);
}

#[test]
fn convention_mode_orders_stems_naturally() {
    let rows = collect_folder(&[
        ("scene10.png", ""),
        ("scene2.png", ""),
        ("scene1.png", ""),
        ("Scene3.png", ""),
    ]);
    assert_eq!(ids(&rows), vec!["scene1", "scene2", "Scene3", "scene10"]);
}

#[test]
fn convention_mode_is_stable_across_runs() {
    let first = ids(&collect_folder(&[("b.png", ""), ("a.png", ""), ("c.png", "")])).join(",");
    assert_eq!(first, "a,b,c");
    for listing in [
        [("c.png", ""), ("a.png", ""), ("b.png", "")],
        [("a.png", ""), ("c.png", ""), ("b.png", "")],
    ] {
        assert_eq!(ids(&collect_folder(&listing)).join(","), first);
    }
}

#[test]
fn narration_with_no_still_is_a_warning() {
    let rows = collect_folder(&[("001.png", ""), ("002.mp3", ""), ("003.txt", "orphan")]);
    assert_eq!(ids(&rows), vec!["001"]);
    assert_eq!(
        rows.problems,
        vec![
            Problem { scene: None, kind: ProblemKind::UnpairedFile { value: "002.mp3".to_string() } },
            Problem { scene: None, kind: ProblemKind::UnpairedFile { value: "003.txt".to_string() } },
        ]
    );
}

#[test]
fn unrelated_files_are_not_warnings() {
    let rows = collect_folder(&[
        ("001.png", ""),
        ("README.md.bak", ""),
        ("notes.xlsx", ""),
        (".DS_Store", ""),
    ]);
    assert_eq!(ids(&rows), vec!["001"]);
    assert!(rows.problems.is_empty(), "{:?}", rows.problems);
}

#[test]
fn a_stem_with_both_partners_is_carried_for_validation_to_reject() {
    let rows = collect_folder(&[("001.png", ""), ("001.txt", "hello"), ("001.mp3", "")]);
    assert_eq!(rows.drafts.len(), 1);
    assert_eq!(rows.drafts[0].text.as_deref(), Some("hello"));
    assert_eq!(rows.drafts[0].audio.as_deref(), Some("001.mp3"));
    assert_eq!(rows.drafts[0].duration, DurationCell::Unset, "not a silent scene either");
}

#[test]
fn a_narration_file_is_read_without_its_bom_or_trailing_newline() {
    let rows = collect_folder(&[("001.png", ""), ("001.txt", "\u{feff}hello there\n\n")]);
    assert_eq!(rows.drafts[0].text.as_deref(), Some("hello there"));
}

#[test]
fn a_script_that_is_not_text_is_reported_and_the_scene_kept() {
    assert_eq!(
        read_line(Ok(vec![0xff, 0xfe, 0x00])),
        Err("not UTF-8 text \u{2014} re-save it as UTF-8".to_string())
    );
    assert_eq!(
        read_line(Err("permission denied".to_string())),
        Err("could not read it: permission denied".to_string())
    );
}

#[test]
fn an_empty_folder_produces_no_rows_and_no_panic() {
    let rows = collect_folder(&[]);
    assert!(rows.drafts.is_empty());
    assert!(rows.problems.is_empty());
}

#[test]
fn a_manifest_wins_over_the_folder() {
    let path = manifest_path("/projects/demo", None);
    assert_eq!(path, "/projects/demo/scenes.csv");
    assert_eq!(rows_source(false, path.clone(), true), Ok(RowSource::Manifest(path.clone())));

    let only = ManifestRow {
        text: Some("the manifest line".to_string()),
        audio_file: Some(String::new()),
        voice: Some("rachel".to_string()),
        duration: Some(String::new()),
        zoom_direction: Some("zoom-in".to_string()),
        zoom_anchor: Some("top-left".to_string()),
        ..row("001.png")
    };
    let rows = read_records(&path, vec![Ok(only)]).expect("reads");
    assert_eq!(rows.mode, Mode::Manifest(path));
    assert_eq!(ids(&rows), vec!["001"]);
    let draft = &rows.drafts[0];
    assert_eq!(draft.text.as_deref(), Some("the manifest line"));
    assert_eq!(draft.audio, None);
    assert_eq!(draft.voice.as_deref(), Some("rachel"));
    assert_eq!(draft.zoom_direction.as_deref(), Some("zoom-in"));
    assert_eq!(draft.zoom_anchor.as_deref(), Some("top-left"));
    assert_eq!(draft.duration, DurationCell::Unset);
}

#[test]
fn manifest_rows_keep_their_order() {
    let rows = read_records(
        "scenes.csv",
        vec![Ok(timed("zulu.png", "1")), Ok(timed("alpha.png", "2")), Ok(timed("mike.png", "3"))],
    )
    .unwrap();
    assert_eq!(ids(&rows), vec!["zulu", "alpha", "mike"]);
}

#[test]
fn a_manifest_may_omit_optional_columns() {
    let hello = ManifestRow { text: Some("hello".to_string()), ..row("001.png") };
    let rows = read_records("scenes.csv", vec![Ok(hello)]).unwrap();
    assert_eq!(rows.drafts[0].text.as_deref(), Some("hello"));
    assert_eq!(rows.drafts[0].audio, None);
}

#[test]
fn a_misspelled_column_is_refused() {
    let error = read_records(
        "scenes.csv",
        vec![Err("unknown field `zoom_ancor`, expected one of `image`, `text`".to_string())],
    )
    .expect_err("unknown column");
    assert!(error.message().contains("zoom_ancor"), "{}", error.message());
    assert!(matches!(error, RowsError::ManifestMalformed { .. }));
}

#[test]
fn the_first_bad_record_refuses_the_whole_file() {
    let error = read_records(
        "/p/scenes.csv",
        vec![Ok(row("001.png")), Err("found record with 3 fields".to_string()), Err("later".to_string())],
    )
    .unwrap_err();
    assert_eq!(
        error,
        RowsError::ManifestMalformed {
            path: "/p/scenes.csv".to_string(),
            detail: "found record with 3 fields".to_string()
        }
    );
    assert_eq!(error.message(), "/p/scenes.csv: found record with 3 fields");
}

#[test]
fn an_unparseable_duration_is_a_problem_not_a_stopped_run() {
    let rows =
        read_records("scenes.csv", vec![Ok(timed("001.png", "soon")), Ok(timed("002.png", "2.5"))])
            .unwrap();
    assert_eq!(ids(&rows), vec!["001", "002"]);
    assert_eq!(rows.drafts[0].duration, DurationCell::Unset);
    assert_eq!(rows.drafts[1].duration, DurationCell::Declared("2.5".to_string()));
    assert_eq!(
        rows.problems,
        vec![Problem {
            scene: Some("001".to_string()),
            kind: ProblemKind::UnusableSetting {
                field: "duration".to_string(),
                value: "soon".to_string(),
                expected: "a number of seconds".to_string(),
            },
        }]
    );
}

#[test]
fn a_row_with_no_image_is_named_by_its_position() {
    let rows = read_records("scenes.csv", vec![Ok(row("001.png")), Ok(row(""))]).unwrap();
    assert_eq!(ids(&rows), vec!["001", "row 2"]);
    assert_eq!(rows.drafts[1].image, None);
}

#[test]
fn a_named_manifest_that_is_missing_is_an_error_not_a_fallback() {
    let path = manifest_path("/p", Some("rows.csv"));
    assert_eq!(path, "/p/rows.csv");
    let error = rows_source(true, path, false).expect_err("named but absent");
    assert!(matches!(error, RowsError::ManifestMissing { .. }));
    assert_eq!(error.message(), "no manifest at /p/rows.csv");
    assert_eq!(rows_source(false, "/p/scenes.csv".to_string(), false), Ok(RowSource::Convention));
}

#[test]
fn a_duration_is_whatever_reads_as_a_number() {
    for good in ["2.5", "3", "-1", "1e3", ".5", "5.", "+4", "inf", "NaN", "1E-2"] {
        assert!(parses_as_float(good), "{good}");
    }
    for bad in ["soon", "", "1.2.3", "e5", "1e", "--1", " 2", "0x10", "."] {
        assert!(!parses_as_float(bad), "{bad}");
    }
}

#[test]
fn an_image_no_manifest_row_mentions_is_a_warning() {
    let files = vec![
        RootFile { name: "001.png".to_string(), listed: true },
        RootFile { name: "002.png".to_string(), listed: false },
        RootFile { name: "scenes.csv".to_string(), listed: false },
    ];
    assert_eq!(
        unlisted_images(&files),
        vec![Problem { scene: None, kind: ProblemKind::UnlistedImage { value: "002.png".to_string() } }]
    );
}

#[test]
fn an_image_whose_row_failed_validation_is_not_called_unlisted() {
    let files = vec![RootFile { name: "001.png".to_string(), listed: true }];
    assert!(unlisted_images(&files).is_empty());
}

#[test]
fn unlisted_stills_are_named_in_order_and_hidden_files_ignored() {
    let files = vec![
        RootFile { name: "b.JPG".to_string(), listed: false },
        RootFile { name: ".a.png".to_string(), listed: false },
        RootFile { name: "a.png".to_string(), listed: false },
        RootFile { name: "notes.txt".to_string(), listed: false },
    ];
    let names: Vec<String> = unlisted_images(&files)
        .into_iter()
        .map(|p| match p.kind {
            ProblemKind::UnlistedImage { value } => value,
            other => panic!("{other:?}"),
        })
        .collect();
    assert_eq!(names, vec!["a.png", "b.JPG"]);
}

fn draft(id: &str) -> SceneDraft {
    SceneDraft {
        id: id.to_string(),
        image: None,
        text: None,
        audio: None,
        duration: DurationCell::Unset,
        voice: None,
        zoom_direction: None,
        zoom_anchor: None,
    }
}

#[test]
fn problems_arrive_in_scene_order_with_the_project_first() {
    let unpaired = |scene: Option<&str>, value: &str| Problem {
        scene: scene.map(str::to_string),
        kind: ProblemKind::UnpairedFile { value: value.to_string() },
    };
    let problems = vec![
        unpaired(Some("002"), "b"),
        unpaired(None, "p"),
        unpaired(Some("001"), "a"),
        unpaired(Some("002"), "c"),
    ];
    let ordered = order_by_scene(&problems, &vec![draft("001"), draft("002")]);
    assert_eq!(
        ordered,
        vec![unpaired(None, "p"), unpaired(Some("001"), "a"), unpaired(Some("002"), "b"), unpaired(Some("002"), "c")]
    );
}

#[test]
fn probes_run_two_to_a_render_worker() {
    assert_eq!(probe_jobs_for(4), 8);
    assert_eq!(probe_jobs_for(0), 1);
    assert_eq!(probe_jobs_for(usize::MAX), usize::MAX);
}

use spoonstill_app::import::{undersized_sources, SceneFit, StillFit};

fn fit(id: &str, fills: bool, native_short_edge: u32, width: u32, height: u32) -> SceneFit {
    SceneFit { id: id.to_string(), fit: Some(StillFit { fills, native_short_edge, width, height }) }
}

fn unmeasured(id: &str) -> SceneFit {
    SceneFit { id: id.to_string(), fit: None }
}

fn undersized(scenes: usize, total: usize, smallest: &str, w: u32, h: u32, native: Option<u32>) -> ProblemKind {
    ProblemKind::UndersizedSources {
        scenes,
        total,
        smallest: smallest.to_string(),
        width: w,
        height: h,
        out_width: 1920,
        out_height: 1080,
        native_short_edge: native,
    }
}

#[test]
fn stills_smaller_than_the_frame_are_warned_about_once_for_the_project() {
    let scenes = vec![
        fit("001", false, 756, 1376, 768),
        fit("002", false, 756, 1376, 768),
        fit("003", true, 2250, 4000, 3000),
    ];
    assert_eq!(
        undersized_sources(&scenes, 1920, 1080),
        Some(undersized(2, 3, "001", 1376, 768, Some(756)))
    );
}

#[test]
fn the_suggested_size_is_decided_by_the_smallest_still() {
    let scenes = vec![fit("001", false, 900, 1600, 900), fit("002", false, 756, 1376, 768)];
    assert_eq!(
        undersized_sources(&scenes, 1920, 1080),
        Some(undersized(2, 2, "002", 1376, 768, Some(756)))
    );
    let mixed = vec![fit("001", true, 700, 2000, 700), fit("002", false, 900, 1600, 900)];
    assert_eq!(
        undersized_sources(&mixed, 1920, 1080),
        Some(undersized(1, 2, "002", 1600, 900, Some(700)))
    );
}

#[test]
fn stills_bigger_than_the_frame_produce_no_warning() {
    let scenes = vec![fit("001", true, 1080, 1920, 1080), fit("002", true, 2250, 4000, 3000)];
    assert_eq!(undersized_sources(&scenes, 1920, 1080), None);
}

#[test]
fn a_project_that_was_never_measured_is_never_warned_about() {
    assert_eq!(undersized_sources(&vec![unmeasured("001"), unmeasured("002")], 1920, 1080), None);
    assert_eq!(undersized_sources(&vec![], 1920, 1080), None);
    let partly = vec![unmeasured("001"), fit("002", false, 756, 1376, 768)];
    assert_eq!(
        undersized_sources(&partly, 1920, 1080),
        Some(undersized(1, 1, "002", 1376, 768, Some(756)))
    );
}

#[test]
fn a_still_no_legal_frame_fits_offers_no_size() {
    let scenes = vec![fit("001", false, 0, 16, 9)];
    assert_eq!(undersized_sources(&scenes, 1920, 1080), Some(undersized(1, 1, "001", 16, 9, None)));
}

#[test]
fn the_first_of_two_equally_small_stills_is_named() {
    let scenes = vec![fit("001", true, 2000, 4000, 3000), fit("002", false, 500, 900, 500), fit("003", false, 500, 900, 500)];
    assert_eq!(
        undersized_sources(&scenes, 1920, 1080),
        Some(undersized(2, 3, "002", 900, 500, Some(500)))
    );
}

use spoonstill_app::import::{pair_scenes, project_root_of, ImportError};

#[test]
fn each_scene_renders_from_the_first_row_that_names_it() {
    let drafts = vec![draft(" 001 "), draft("002"), draft("001"), draft("003")];
    let has_image = vec![true, false, true, true];
    let has_audio = vec![false, false, true, true];
    let scenes = vec!["001".to_string(), "002".to_string(), "003".to_string(), "004".to_string()];
    let needs_audio = vec![false, false, true, false];
    assert_eq!(
        pair_scenes(&drafts, &has_image, &has_audio, &scenes, &needs_audio),
        vec![Some(0), None, Some(3), None]
    );
    // A scene narrated by a file whose recording did not resolve is not rendered.
    assert_eq!(
        pair_scenes(&drafts, &has_image, &has_audio, &vec!["001".to_string()], &vec![true]),
        vec![None]
    );
}

#[test]
fn a_folder_that_is_not_there_is_an_error_not_an_empty_project() {
    assert_eq!(
        project_root_of("/no/such", None, false),
        Err(ImportError::NoProject { path: "/no/such".to_string() })
    );
    assert_eq!(
        project_root_of("demo.txt", Some("/p/demo.txt".to_string()), false),
        Err(ImportError::NoProject { path: "/p/demo.txt".to_string() })
    );
    assert_eq!(project_root_of("demo", Some("/p/demo".to_string()), true), Ok("/p/demo".to_string()));
}

#[test]
fn a_duration_problem_on_a_row_with_no_usable_id_is_the_projects() {
    let rows = from_manifest(
        "scenes.csv",
        vec![Ok(timed("001.png", "soon")), Ok(timed("bad id.png", "later"))],
        &vec![true, false],
    )
    .unwrap();
    let scenes: Vec<Option<String>> = rows.problems.iter().map(|p| p.scene.clone()).collect();
    assert_eq!(scenes, vec![Some("001".to_string()), None]);
}

use spoonstill_app::import::first_refusal;
use spoonstill_app::import::settings::SettingsError;

#[test]
fn a_project_is_refused_by_the_first_stage_that_cannot_read_it() {
    let settings_error = || SettingsError::Malformed { path: "/p/project.yaml".to_string(), detail: "bad".to_string() };
    let rows_error = || RowsError::ManifestMissing { path: "/p/rows.csv".to_string() };
    let missing = ImportError::NoProject { path: "/p".to_string() };
    assert_eq!(
        first_refusal::<u8, u8>(Err(missing.clone()), Err(settings_error()), Err(rows_error())),
        Err(missing)
    );
    assert_eq!(
        first_refusal::<u8, u8>(Ok("/p".to_string()), Err(settings_error()), Err(rows_error())),
        Err(ImportError::Settings(settings_error()))
    );
    assert_eq!(
        first_refusal::<u8, u8>(Ok("/p".to_string()), Ok(1), Err(rows_error())),
        Err(ImportError::Rows(rows_error()))
    );
    assert_eq!(first_refusal(Ok("/p".to_string()), Ok(1u8), Ok(2u8)), Ok(("/p".to_string(), 1, 2)));
}
