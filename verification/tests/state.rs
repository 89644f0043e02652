use spoonstill_app::audio::AudioCache;
use spoonstill_app::diagnostics::{condensed_configuration, default_bundle_name, first_line, words};
use spoonstill_app::render::{state_root_for, state_root_from};
use spoonstill_app::voice::{resolve, VoiceOrigin};

fn cache() -> AudioCache {
    AudioCache::in_project("/projects/demo")
}

#[test]
fn the_cache_lives_under_the_state_directory() {
    let cache = cache();
    assert!(cache.directory().starts_with("/projects/demo/.spoonstill"));
    assert_eq!(cache.directory(), "/projects/demo/.spoonstill/cache/audio");
    assert!(cache.path_for("file", 0x1234_5678_9abc_def0).ends_with("file-123456789abcdef0.wav"));
}

#[test]
fn cache_names_are_ascii_whatever_the_source_was_called() {
    let path = cache().path_for("file", u64::MAX);
    let name = path.rsplit('/').next().unwrap().to_string();
    assert!(name.is_ascii(), "{name}");
    assert_eq!(name, "file-ffffffffffffffff.wav");
}

#[test]
fn raw_speech_is_kept_beside_the_normalized_artifact() {
    assert_eq!(
        cache().spoken_path(0xab),
        "/projects/demo/.spoonstill/cache/audio/spoken-00000000000000ab.spoken"
    );
}

#[test]
fn the_state_root_is_the_output_directory() {
    assert_eq!(state_root_for("/renders/proj/seg.mp4"), "/renders/proj");
    assert_eq!(state_root_for("seg.mp4"), ".");
    assert_eq!(state_root_from(None), ".");
    assert_eq!(state_root_from(Some(String::new())), ".");
}

#[test]
fn a_bundle_name_carries_its_stamp() {
    assert_eq!(default_bundle_name("20260826-123456"), "spoonstill-diagnostics-20260826-123456.txt");
}

#[test]
fn the_build_configuration_admits_what_it_omitted() {
    let report = "ffmpeg version 7.1 Copyright (c) 2000-2024\n  built with clang\n  \
                  configuration: --prefix=/usr --enable-gpl --enable-libx264 --disable-doc\n  \
                  libavutil      59. 39.100\n";
    let text = condensed_configuration(report);
    assert!(text.contains("not shown") || text.contains("not reported"), "{text}");
    assert_eq!(text, "--enable-gpl --enable-libx264 (2 other flags not shown)");
    assert_eq!(condensed_configuration("ffmpeg version 7.1\n"), "<not reported>");
}

#[test]
fn a_version_is_its_first_line_trimmed() {
    assert_eq!(first_line("  ffmpeg version 7.1  \r\nmore\n"), "ffmpeg version 7.1");
    assert_eq!(first_line(""), "<no output>");
    assert_eq!(words("  a  b\tc "), vec!["a", "b", "c"]);
}

#[test]
fn an_unchosen_voice_does_not_claim_anybody_chose_it() {
    let unchosen = resolve(None, "default", None, "en-US-AvaNeural");
    assert!(!unchosen.said.contains("project.yaml") && !unchosen.detail.contains("asks for"));
    assert!(unchosen.detail.contains("Settings"), "{}", unchosen.detail);
    assert!(unchosen.detail.contains("en-US-AvaNeural"), "{}", unchosen.detail);
    assert!(unchosen.detail.contains("script"), "{}", unchosen.detail);
    assert_eq!(unchosen.origin, VoiceOrigin::Unchosen);

    let said: std::collections::BTreeSet<String> = [
        resolve(Some("run"), "proj", Some("fall"), "prov"),
        resolve(None, "proj", Some("fall"), "prov"),
        resolve(None, "default", Some("fall"), "prov"),
        unchosen,
    ]
    .into_iter()
    .map(|choice| choice.said)
    .collect();
    assert_eq!(said.len(), 4, "two origins read the same: {said:?}");
}

#[test]
fn a_provider_with_no_fallback_of_its_own_says_the_script_decides() {
    let unchosen = resolve(Some("  "), "", None, "");
    assert_eq!(unchosen.voice, "");
    assert!(unchosen.detail.contains("whatever voice its own script suggests"));
}

use spoonstill_app::machine::{
    load, loaded, set_default_voice, Machine, MachineRead, DAMAGED_NEED, UNREADABLE_NEED,
};

#[test]
fn a_missing_file_is_silent_and_a_damaged_one_is_not() {
    let missing = loaded("settings.yaml", &MachineRead::NotFound);
    assert_eq!(missing.settings, Machine::default());
    assert!(missing.problem.is_none());

    let damaged = loaded(
        "settings.yaml",
        &MachineRead::Damaged("found unexpected end of stream".to_string()),
    );
    assert_eq!(damaged.settings, Machine::default());
    let problem = damaged.problem.expect("a damaged file is reported");
    assert!(problem.need.contains("voice"), "{}", problem.need);
    assert!(!problem.need.contains("YAML"), "{}", problem.need);
    assert_eq!(problem.need, DAMAGED_NEED);
    assert_eq!(problem.detail, "settings.yaml: found unexpected end of stream");
    assert!(problem.need.contains("settings.yaml.broken"));

    let unreadable =
        loaded("/cfg/settings.yaml", &MachineRead::Unreadable("permission denied".to_string()));
    let problem = unreadable.problem.expect("an unreadable file is reported");
    assert_eq!(problem.need, UNREADABLE_NEED);
    assert_eq!(problem.detail, "/cfg/settings.yaml: permission denied");
}

#[test]
fn a_setting_survives_being_written_and_read() {
    let full = set_default_voice(Machine::default(), Some("  en-GB-RyanNeural "));
    assert_eq!(full.default_voice.as_deref(), Some("en-GB-RyanNeural"));
    assert_eq!(load(&MachineRead::Parsed(full.clone())), full);

    assert_eq!(set_default_voice(full.clone(), Some("default")), Machine::default());
    assert_eq!(set_default_voice(full.clone(), Some("   ")), Machine::default());
    assert_eq!(set_default_voice(full, None), Machine::default());
    assert_eq!(load(&MachineRead::NotFound), Machine::default());
}

use spoonstill_app::window::{relative, RenderSlot, ALREADY_RENDERING};

#[test]
fn a_file_inside_the_project_is_shown_relative_to_it() {
    assert_eq!(relative("/projects/demo/stills/001.jpg", "/projects/demo"), "stills/001.jpg");
    assert_eq!(relative("/elsewhere/001.jpg", "/projects/demo"), "/elsewhere/001.jpg");
    assert_eq!(relative("/projects/demolition/001.jpg", "/projects/demo"), "/projects/demolition/001.jpg");
}

#[test]
fn a_second_render_is_refused_until_the_first_is_over() {
    let mut slot: RenderSlot<u32> = RenderSlot::new();
    assert_eq!(slot.claim(1), Ok(()));
    assert_eq!(slot.current(), Some(&1));
    assert_eq!(slot.claim(2), Err(ALREADY_RENDERING.to_string()));
    assert_eq!(slot.current(), Some(&1), "the running render is untouched");
    slot.release();
    assert_eq!(slot.current(), None);
    assert_eq!(slot.claim(3), Ok(()));
    assert_eq!(slot.current(), Some(&3));
}

#[test]
fn raw_speech_never_shares_a_file_with_a_normalized_artifact() {
    let cache = cache();
    for key in [0u64, 0xab, u64::MAX] {
        assert_ne!(cache.spoken_path(key), cache.path_for("spoken", key));
        assert_ne!(cache.spoken_path(key), cache.path_for("file", key));
        assert!(cache.spoken_path(key).ends_with(&format!("spoken-{key:016x}.spoken")));
    }
}
