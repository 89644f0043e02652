use spoonstill_app::film::{
    collect, is_abandoned_partial, run_jobs, segment_file_name, services_needed, sweep_plan,
    FilmError, SceneFailure, ServiceNeed, SweepEntry, NOT_STARTED,
};
use spoonstill_app::pool::{
    default_jobs_for, into_outcomes, why_not_started, workers_for, NotStarted, Outcome,
    MAX_AUTO_JOBS,
};

fn ids(names: &[&str]) -> Vec<String> {
    names.iter().map(|n| n.to_string()).collect()
}

fn entry(name: &str, modified: i128) -> SweepEntry {
    SweepEntry { name: name.to_string(), is_file: true, size: 1, modified }
}

fn failure(index: usize, id: &str, detail: &str) -> SceneFailure {
    SceneFailure { index, id: id.to_string(), detail: detail.to_string() }
}

#[test]
fn a_segment_name_is_its_position_and_its_key() {
    assert_eq!(segment_file_name(7, 0x0123_4567_89ab_cdef), "seg-0007-0123456789abcdef.mp4");
    assert_eq!(segment_file_name(0, 0), "seg-0000-0000000000000000.mp4");
    assert_eq!(segment_file_name(12345, u64::MAX), "seg-12345-ffffffffffffffff.mp4");
}

#[test]
fn only_hidden_partials_are_abandoned_temporaries() {
    assert!(is_abandoned_partial(".seg-0001.partial-42.mp4"));
    assert!(!is_abandoned_partial("seg-0001.partial-42.mp4"));
    assert!(!is_abandoned_partial(".hidden.mp4"));
}

#[test]
fn every_failed_scene_is_reported_together_in_order() {
    let outcomes: Vec<Outcome<Result<u32, String>>> = vec![
        Outcome::Done(Ok(1)),
        Outcome::Done(Err("no still".to_string())),
        Outcome::Done(Ok(3)),
        Outcome::NotAdmitted(NotStarted::EarlierFailure),
    ];
    let failures = collect(&ids(&["001", "002", "003", "004"]), outcomes, false).unwrap_err();
    assert_eq!(failures, vec![failure(1, "002", "no still"), failure(3, "004", NOT_STARTED)]);
}

#[test]
fn a_clean_run_returns_every_value_in_scene_order() {
    let outcomes: Vec<Outcome<Result<u32, String>>> =
        vec![Outcome::Done(Ok(10)), Outcome::Done(Ok(20)), Outcome::Done(Ok(30))];
    assert_eq!(collect(&ids(&["a", "b", "c"]), outcomes, false), Ok(vec![10, 20, 30]));
}

#[test]
fn a_cancelled_run_is_one_line_not_a_list() {
    let outcomes: Vec<Outcome<Result<u32, String>>> = vec![
        Outcome::Done(Ok(1)),
        Outcome::NotAdmitted(NotStarted::Cancelled),
        Outcome::NotAdmitted(NotStarted::Cancelled),
    ];
    let failures = collect(&ids(&["a", "b", "c"]), outcomes, true).unwrap_err();
    assert_eq!(failures, vec![failure(0, "*", "cancelled")]);
}

#[test]
fn a_scene_without_an_id_is_named_by_its_position() {
    let outcomes: Vec<Outcome<Result<u32, String>>> =
        vec![Outcome::Done(Ok(1)), Outcome::Done(Err("broken".to_string()))];
    let failures = collect(&ids(&["a"]), outcomes, false).unwrap_err();
    assert_eq!(failures, vec![failure(1, "1", "broken")]);
}

#[test]
fn a_failure_reads_as_the_scene_and_its_reason() {
    assert_eq!(failure(0, "007", "no still").describe(), "scene 007: no still");
}

#[test]
fn an_output_setting_that_escapes_the_project_says_how_to_do_it_deliberately() {
    let error = FilmError::OutputOutsideProject { value: "../../out.mp4".to_string() };
    let message = error.message();
    assert!(message.contains("--out"), "{message}");
    assert!(message.contains("\"../../out.mp4\""), "{message}");
    assert!(message.starts_with("the project's output setting \"../../out.mp4\" points outside"));
}

#[test]
fn counted_refusals_agree_in_number() {
    assert_eq!(
        FilmError::HasProblems { errors: 1 }.message(),
        "1 problem stops this render — fix them, or run `still validate` to see them again"
    );
    assert_eq!(
        FilmError::HasProblems { errors: 3 }.message(),
        "3 problems stop this render — fix them, or run `still validate` to see them again"
    );
    let render = FilmError::Render {
        failures: vec![failure(0, "001", "exit 1"), failure(2, "003", "exit 2")],
    };
    assert_eq!(
        render.message(),
        "2 scenes failed to render:\n  scene 001: exit 1\n  scene 003: exit 2"
    );
    let audio = FilmError::Audio { failures: vec![failure(0, "001", "missing")] };
    assert_eq!(audio.message(), "1 narration could not be resolved:\n  scene 001: missing");
}

#[test]
fn a_voice_service_refusal_counts_its_scenes() {
    let error = FilmError::VoiceService {
        provider: "piper".to_string(),
        detail: "not installed".to_string(),
        scenes: 2,
    };
    assert!(error
        .message()
        .starts_with("2 scenes need the piper voice service, and it is not usable: not installed\n"));
}

#[test]
fn a_lock_refusal_says_whether_force_can_help() {
    let forced = FilmError::Locked {
        path: "/p/.spoonstill/render.lock".to_string(),
        held_by: "pid 12".to_string(),
        forced: true,
    };
    assert!(forced.message().contains("--force cannot take a lock"));
    let waiting = FilmError::Locked {
        path: "/p/.spoonstill/render.lock".to_string(),
        held_by: "pid 12".to_string(),
        forced: false,
    };
    assert!(waiting.message().contains("/p/.spoonstill/render.lock is never left holding one."));
}

#[test]
fn a_named_job_count_is_obeyed_but_never_zero() {
    assert_eq!(run_jobs(Some(16), 2), 16);
    assert_eq!(run_jobs(Some(0), 2), 1);
    assert_eq!(run_jobs(None, 3), 3);
}

#[test]
fn each_voice_service_is_asked_once_with_its_scene_count() {
    let needed = vec![
        None,
        Some("piper".to_string()),
        Some("openai".to_string()),
        Some("piper".to_string()),
    ];
    assert_eq!(
        services_needed(&needed),
        vec![
            ServiceNeed { provider: "piper".to_string(), scenes: 2 },
            ServiceNeed { provider: "openai".to_string(), scenes: 1 },
        ]
    );
    assert!(services_needed(&vec![None, None]).is_empty());
}

#[test]
fn the_sweep_keeps_two_generations_and_deletes_the_oldest() {
    let live = vec!["seg-0000-000000000000000a.mp4".to_string(), "seg-0001-000000000000000b.mp4".to_string()];
    let mut entries = vec![
        entry("seg-0000-000000000000000a.mp4", 100),
        entry("seg-0001-000000000000000b.mp4", 100),
    ];
    for (n, modified) in [(1, 1), (2, 2), (3, 3), (4, 4), (5, 5), (6, 6)] {
        entries.push(entry(&format!("seg-0000-{n:016x}.mp4"), modified));
    }
    entries.push(entry(".seg-0000.partial-9.mp4", 50));
    entries.push(entry("holiday.mp4", 0));
    entries.push(SweepEntry { name: "seg-0009-0000000000000009.mp4".to_string(), is_file: false, size: 0, modified: 0 });

    let doomed = sweep_plan(&entries, &live);
    assert_eq!(doomed, vec![8, 3, 2], "the partial, then the two oldest segments");
}

#[test]
fn a_sweep_with_nothing_superseded_deletes_nothing() {
    let live = vec!["seg-0000-000000000000000a.mp4".to_string()];
    let entries = vec![entry("seg-0000-000000000000000a.mp4", 1), entry("notes.txt", 0)];
    assert!(sweep_plan(&entries, &live).is_empty());
}

#[test]
fn an_empty_batch_starts_no_workers() {
    let slots: Vec<Option<u32>> = Vec::new();
    assert!(into_outcomes(slots, NotStarted::Cancelled).is_empty());
}

#[test]
fn the_worker_count_is_clamped_to_something_sensible() {
    assert_eq!(workers_for(0, 3), 1);
    assert_eq!(workers_for(1, 3), 1);
    assert_eq!(workers_for(40, 3), 3);
}

#[test]
fn the_default_is_at_least_one_and_never_runaway() {
    for cores in [None, Some(0), Some(1), Some(2), Some(3), Some(8), Some(10), Some(64)] {
        let jobs = default_jobs_for(cores);
        assert!((1..=MAX_AUTO_JOBS).contains(&jobs), "{cores:?}: {jobs}");
    }
    assert_eq!(default_jobs_for(Some(10)), 4);
    assert_eq!(default_jobs_for(Some(6)), 3);
    assert_eq!(default_jobs_for(None), 1);
}

#[test]
fn unadmitted_slots_say_why() {
    let outcomes = into_outcomes(vec![Some(1), None, Some(3)], why_not_started(false));
    assert_eq!(
        outcomes,
        vec![Outcome::Done(1), Outcome::NotAdmitted(NotStarted::EarlierFailure), Outcome::Done(3)]
    );
    assert_eq!(why_not_started(true), NotStarted::Cancelled);
    assert!(outcomes[1].was_skipped());
    assert_eq!(outcomes[0].clone().done(), Some(1));
}

use spoonstill_app::film::{render_start, RunStart};

#[test]
fn a_project_with_problems_or_no_scenes_does_not_start() {
    assert_eq!(
        render_start(2, 5, None, 4, 5760, 3240, None, 4).unwrap_err(),
        FilmError::HasProblems { errors: 2 }
    );
    assert_eq!(render_start(0, 0, None, 4, 5760, 3240, None, 4).unwrap_err(), FilmError::NoScenes);
}

#[test]
fn a_render_starts_with_the_memory_rule_and_warns_before_the_pool() {
    let eight_gb = Some(5_600 * 1024 * 1024);
    let automatic = render_start(0, 12, None, 0, 11520, 6480, eight_gb, 4).unwrap();
    assert_eq!(automatic.jobs, 2);
    assert_eq!(automatic.audio_jobs, 1);
    assert!(automatic.limited_by_memory);
    assert_eq!(automatic.pressure, None);

    let asked = render_start(0, 12, Some(8), 6, 11520, 6480, eight_gb, 4).unwrap();
    assert_eq!(asked.jobs, 8);
    assert_eq!(asked.audio_jobs, 6);
    assert!(!asked.limited_by_memory, "a number the operator named is not the memory rule's");
    let pressure = asked.pressure.expect("eight 4K workers overcommit 8 GB");
    assert_eq!(pressure.jobs, 8);
    assert_eq!(pressure.fits, 2);

    let roomy: RunStart = render_start(0, 1, Some(0), 1, 5760, 3240, None, 4).unwrap();
    assert_eq!(roomy.jobs, 1);
    assert_eq!(roomy.per_worker, 192 * 1024 * 1024 + 5760 * 3240 * 36);
}
