use spoonstill_app::capacity::gigabytes;
use spoonstill_app::film::{is_our_segment, project_id};
use spoonstill_app::import::human_size;
use spoonstill_app::import::rows::{natural_key, stem_of};
use spoonstill_app::natural::NaturalPart;
use spoonstill_app::voice::{resolve, VoiceOrigin};
use spoonstill_app::CRATE_NAME;

#[test]
fn memory_is_worded_the_way_an_operator_reads_it() {
    assert_eq!(gigabytes(2_630 * 1024 * 1024), "2.6 GB");
    assert_eq!(gigabytes(0), "0.0 GB");
}

#[test]
fn project_identity_survives_being_moved() {
    assert_eq!(project_id("/a/b/demo"), "demo");
    assert_eq!(project_id("/elsewhere/demo"), "demo");
    assert_eq!(project_id("/"), "project");
}

#[test]
fn the_sweep_recognises_only_the_names_we_write() {
    assert!(is_our_segment("seg-0000-0123456789abcdef.mp4"));
    assert!(is_our_segment("seg-9999-ffffffffffffffff.mp4"));

    for foreign in [
        "holiday.mp4",
        "notes.txt",
        "seg-99-abc.mp4",
        "seg-0000-0123456789abcdef.mov",
        "seg-000a-0123456789abcdef.mp4",
        "seg-0000-0123456789abcdeg.mp4",
        "seg-0000-0123456789abcde.mp4",
        "seg-0000-0123456789abcdef0.mp4",
        "xseg-0000-0123456789abcdef.mp4",
    ] {
        assert!(!is_our_segment(foreign), "would have deleted {foreign}");
    }
}

#[test]
fn a_size_below_a_megabyte_is_not_reported_as_zero() {
    assert_eq!(human_size(0), "0 bytes");
    assert_eq!(human_size(999), "999 bytes");
    assert_eq!(human_size(1024), "1 KB");
    assert_eq!(human_size(400_000), "390 KB");
    assert_eq!(human_size(1024 * 1024 - 1), "1023 KB");
    assert_eq!(human_size(1024 * 1024), "1.0 MB");
    assert_eq!(human_size(191 * 1024 * 1024), "191.0 MB");
    for bytes in (1..1024 * 1024).step_by(997) {
        let said = human_size(bytes);
        assert!(
            !said.starts_with("0 MB"),
            "{bytes} bytes reported as {said}"
        );
    }
}

#[test]
fn a_row_written_with_windows_separators_keys_the_same_scene() {
    assert_eq!(stem_of(r"img\001.jpg").as_deref(), Some("001"));
    assert_eq!(stem_of("img/001.jpg").as_deref(), Some("001"));
    assert_eq!(stem_of("001.jpg").as_deref(), Some("001"));
    assert_eq!(
        stem_of("  spaced name .jpg  ").as_deref(),
        Some("spaced name")
    );
    assert_eq!(stem_of(""), None);
}

#[test]
fn natural_keys_order_numbers_as_numbers() {
    let mut stems = ["a10", "a9", "a100", "b1", "2", "10", "1", "intro"];
    stems.sort_by_key(|s| natural_key(s));
    assert_eq!(
        stems,
        ["1", "2", "10", "a9", "a10", "a100", "b1", "intro"],
        "numbered stems first, then text, and numbers compared as numbers"
    );
}

#[test]
fn an_absurd_digit_run_falls_back_to_text() {
    let huge = "9".repeat(60);
    assert_eq!(natural_key(&huge), vec![NaturalPart::Text(huge)]);
}

#[test]
fn crate_is_part_of_the_spoonstill_family() {
    assert!(
        CRATE_NAME.starts_with("spoonstill-"),
        "expected a spoonstill-* crate, found {CRATE_NAME:?}"
    );
}

#[test]
fn the_voice_is_decided_by_the_first_answer_that_names_one() {
    let cases = [
        (Some("run"), "proj", Some("fall"), "prov", "run", VoiceOrigin::Run),
        (None, "proj", Some("fall"), "prov", "proj", VoiceOrigin::Project),
        (None, "default", Some("fall"), "prov", "fall", VoiceOrigin::Fallback),
        (None, "default", None, "prov", "prov", VoiceOrigin::Unchosen),
        (None, "", Some("fall"), "prov", "fall", VoiceOrigin::Fallback),
        (Some(""), "proj", None, "prov", "proj", VoiceOrigin::Project),
        (Some("default"), "default", None, "prov", "prov", VoiceOrigin::Unchosen),
        (None, "default", Some(" "), "prov", "prov", VoiceOrigin::Unchosen),
        (Some(" run "), "proj", None, "prov", "run", VoiceOrigin::Run),
    ];

    for (chosen, project, fallback, provider, voice, origin) in cases {
        let got = resolve(chosen, project, fallback, provider);
        assert_eq!(
            (got.voice.as_str(), got.origin),
            (voice, origin),
            "chosen={chosen:?} project={project:?} fallback={fallback:?}"
        );
    }
}

#[test]
fn only_the_two_answers_the_window_owns_are_sent_as_an_override() {
    assert_eq!(
        resolve(Some("run"), "proj", Some("fall"), "prov").override_for_render,
        Some("run".to_owned())
    );
    assert_eq!(
        resolve(None, "default", Some("fall"), "prov").override_for_render,
        Some("fall".to_owned())
    );
    assert_eq!(
        resolve(None, "proj", Some("fall"), "prov").override_for_render,
        None,
        "project.yaml's own voice is the renderer's to read"
    );
    assert_eq!(
        resolve(None, "default", None, "prov").override_for_render,
        None,
        "sending the provider's default would overrule the script rule"
    );

    for (chosen, project, fallback) in [
        (Some("run"), "proj", Some("fall")),
        (None, "default", Some("fall")),
    ] {
        let got = resolve(chosen, project, fallback, "prov");
        assert_eq!(
            got.override_for_render.as_deref(),
            Some(got.voice.as_str()),
            "the render would use a voice the screen does not name"
        );
    }
}

#[test]
fn a_voice_can_be_the_machines_without_being_the_reason_it_was_chosen() {
    let both = resolve(Some("fall"), "proj", Some("fall"), "prov");
    assert_eq!(both.origin, VoiceOrigin::Run);
    assert!(both.is_fallback, "the pin would offer to set it again");

    assert!(!resolve(Some("run"), "proj", Some("fall"), "prov").is_fallback);

    assert!(resolve(None, "fall", Some("fall"), "prov").is_fallback);
    assert!(!resolve(None, "proj", Some("fall"), "prov").is_fallback);

    assert!(resolve(None, "default", Some("fall"), "prov").is_fallback);

    assert!(!resolve(None, "default", None, "prov").is_fallback);
}

#[test]
fn an_unreachable_provider_still_gets_a_readable_answer() {
    let choice = resolve(None, "default", None, "");
    assert_eq!(choice.origin, VoiceOrigin::Unchosen);
    assert!(choice.voice.is_empty());
    assert!(
        !choice.detail.contains("  ") && !choice.detail.contains("read by ,"),
        "an empty provider default left a hole in the sentence: {}",
        choice.detail
    );
    assert!(choice.detail.contains("Settings"), "{}", choice.detail);
}
