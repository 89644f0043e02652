use spoonstill_app::ingest::{
    accept_existing_folder, add_media, assign, highest_scene, kind_of, next_index, scene_file_name,
    sorted_naturally, stills_among, Copied, IngestError, Ingested, Kind, Skipped, NOT_MEDIA, NO_SUCH_FILE,
};

/// A drop into a project holding `existing`, of `sources` (each with whether
/// it is there): what the report says, and the folder's names afterwards.
fn drop(existing: &[&str], sources: &[(&str, bool)]) -> (Ingested, Vec<String>) {
    let mut folder: Vec<String> = existing.iter().map(|s| s.to_string()).collect();
    let mut report = Ingested::default();
    let mut files = Vec::new();
    for (source, present) in sources {
        if *present {
            files.push(source.to_string());
        } else {
            report.skipped.push(Skipped { source: source.to_string(), reason: NO_SUCH_FILE.to_owned() });
        }
    }
    let start = next_index(&folder);
    let plan = add_media(start, &files);
    report.skipped.extend(plan.skipped);
    report.audio_without_image = plan.audio_without_image;
    report.script_without_image = plan.script_without_image;
    report.image_without_audio = plan.image_without_audio;
    for scene in &plan.scenes {
        let name = scene_file_name(&scene.stem, &scene.image);
        folder.push(name.clone());
        report.images.push(Copied { source: scene.image.clone(), name });
        if let Some(n) = &scene.narration {
            let name = scene_file_name(&scene.stem, n);
            folder.push(name.clone());
            report.audio.push(Copied { source: n.clone(), name });
        }
        if let Some(t) = &scene.script {
            let name = scene_file_name(&scene.stem, t);
            folder.push(name.clone());
            report.scripts.push(Copied { source: t.clone(), name });
        }
    }
    folder.sort();
    (report, folder)
}

#[test]
fn photos_and_recordings_pair_by_position_under_numbered_names() {
    let (report, names) = drop(
        &[],
        &[("IMG_10.jpg", true), ("IMG_2.jpg", true), ("Voice 2.m4a", true), ("Voice 10.m4a", true)],
    );
    assert_eq!(names, ["001.jpg", "001.m4a", "002.jpg", "002.m4a"]);
    assert_eq!(report.images[0].source, "IMG_2.jpg");
    assert_eq!(report.images[0].name, "001.jpg");
    assert_eq!(report.audio[0].source, "Voice 2.m4a");
    assert_eq!(report.image_without_audio, 0);
    assert_eq!(report.audio_without_image, 0);
}

#[test]
fn a_second_drop_appends_rather_than_overwriting() {
    let (_, first) = drop(&[], &[("a.jpg", true)]);
    let existing: Vec<&str> = first.iter().map(String::as_str).collect();
    let (second, names) = drop(&existing, &[("b.jpg", true)]);
    assert_eq!(second.images[0].name, "002.jpg");
    assert_eq!(names, ["001.jpg", "002.jpg"]);
}

#[test]
fn more_photos_than_recordings_leaves_silent_scenes() {
    let (report, names) = drop(&[], &[("1.jpg", true), ("2.jpg", true), ("3.jpg", true), ("only.wav", true)]);
    assert_eq!(report.image_without_audio, 2);
    assert_eq!(report.audio.len(), 1);
    assert_eq!(names, ["001.jpg", "001.wav", "002.jpg", "003.jpg"]);
}

#[test]
fn more_recordings_than_photos_is_counted_and_not_copied() {
    let (report, names) = drop(&[], &[("1.jpg", true), ("1.wav", true), ("2.wav", true)]);
    assert_eq!(report.audio_without_image, 1);
    assert_eq!(names, ["001.jpg", "001.wav"]);
}

#[test]
fn junk_is_skipped_by_name_rather_than_refused() {
    let (report, _) = drop(
        &[],
        &[("good.jpg", true), (".DS_Store", true), ("script.txt", true), ("gone.jpg", false)],
    );
    assert_eq!(report.images.len(), 1);
    assert_eq!(report.scripts.len(), 1, "a script is media, not junk");
    assert_eq!(report.skipped.len(), 2);
    assert!(report.skipped.iter().any(|s| s.reason.contains("no such file")));
    assert!(report.skipped.iter().any(|s| s.reason == NOT_MEDIA));
}

#[test]
fn a_script_named_after_its_photo_pairs_with_that_photo() {
    let (report, _) = drop(&[], &[("IMG_2931.jpg", true), ("IMG_2930.jpg", true), ("IMG_2931.txt", true)]);
    assert_eq!(report.images[1].name, "002.jpg");
    assert_eq!(report.scripts[0].name, "002.txt");
    assert_eq!(report.image_without_audio, 1, "only 001 is silent");
}

#[test]
fn the_report_pairs_by_stem_and_not_by_position() {
    let (report, _) = drop(&[], &[("a.jpg", true), ("b.jpg", true), ("c.jpg", true), ("b.wav", true)]);
    assert_eq!(report.images[1].name, "002.jpg");
    assert_eq!(
        report.narration_for(&report.images[1]).map(|c| c.name.as_str()),
        Some("002.wav")
    );
    assert!(report.narration_for(&report.images[0]).is_none());
    assert!(report.narration_for(&report.images[2]).is_none());
}

#[test]
fn a_photo_can_arrive_with_both_a_recording_and_a_script() {
    let (report, names) = drop(&[], &[("a.jpg", true), ("a.mp3", true), ("a.txt", true)]);
    assert_eq!(names, ["001.jpg", "001.mp3", "001.txt"]);
    assert_eq!(report.image_without_audio, 0);
}

#[test]
fn natural_order_counts_in_decimal() {
    let names: Vec<String> = ["IMG_10.jpg", "IMG_9.jpg", "img_2.JPG", "b.jpg"]
        .iter()
        .map(|s| s.to_string())
        .collect();
    let order = sorted_naturally(&names);
    assert_eq!(order, ["b.jpg", "img_2.JPG", "IMG_9.jpg", "IMG_10.jpg"]);
}

#[test]
fn creating_over_an_existing_project_is_refused_by_name() {
    let names = vec!["001.jpg".to_owned(), "notes.txt".to_owned()];
    let again = accept_existing_folder("/films/demo", &names);
    assert!(
        matches!(again, Err(IngestError::AlreadyAProject { stills: 1, .. })),
        "expected a refusal naming the stills, found {again:?}"
    );
    assert_eq!(
        again.unwrap_err().message(),
        "/films/demo already holds 1 still — open it instead of creating it"
    );
}

#[test]
fn an_existing_empty_folder_is_a_fine_place_for_a_new_project() {
    assert!(accept_existing_folder("/films/blank", &Vec::new()).is_ok());
    assert!(accept_existing_folder("/films/notes", &vec!["readme.md".to_owned()]).is_ok());
}

#[test]
fn numbering_continues_past_the_highest_still() {
    let names: Vec<String> = ["001.jpg", "007.png", "opening.jpg", "009.txt", "+3.jpg"]
        .iter()
        .map(|s| s.to_string())
        .collect();
    assert_eq!(highest_scene(&names), Some(7));
    assert_eq!(next_index(&names), 8);
    assert_eq!(next_index(&vec!["opening.jpg".to_owned()]), 1);
    assert_eq!(stills_among(&names), 4);
}

#[test]
fn a_thousandth_scene_widens_the_names() {
    let files: Vec<String> = (0..3).map(|n| format!("{n}.jpg")).collect();
    let plan = add_media(998, &files);
    let stems: Vec<&str> = plan.scenes.iter().map(|s| s.stem.as_str()).collect();
    assert_eq!(stems, ["0998", "0999", "1000"]);
}

#[test]
fn every_recording_is_either_paired_or_counted() {
    let images: Vec<String> = ["a.jpg", "b.jpg"].iter().map(|s| s.to_string()).collect();
    let pool: Vec<String> = ["x.wav", "b.wav", "y.wav", "z.wav"].iter().map(|s| s.to_string()).collect();
    let (slots, spare) = assign(&images, &pool);
    assert_eq!(slots, vec![Some("x.wav".to_owned()), Some("b.wav".to_owned())]);
    assert_eq!(spare, 2);
    assert_eq!(slots.iter().filter(|s| s.is_some()).count() + spare, pool.len());
}

#[test]
fn the_extension_decides_what_a_file_is() {
    assert_eq!(kind_of("shot.HEIC"), Some(Kind::Image));
    assert_eq!(kind_of("Voice 014.m4a"), Some(Kind::Audio));
    assert_eq!(kind_of("words.md"), Some(Kind::Text));
    assert_eq!(kind_of("sheet.pdf"), None);
    assert_eq!(kind_of("noextension"), None);
    assert_eq!(scene_file_name("004", "IMG_1.JPEG"), "004.jpeg");
}

#[test]
fn the_summary_names_what_happened() {
    let (report, _) = drop(
        &[],
        &[("1.jpg", true), ("2.jpg", true), ("1.wav", true), ("x.wav", true), ("y.wav", true), ("n.pdf", true)],
    );
    assert_eq!(
        report.summary(),
        "2 photos, 2 narrations paired, 1 file with no photo, 1 skipped"
    );
    assert!(!report.is_empty());
    assert!(Ingested::default().is_empty());
    assert_eq!(Ingested::default().summary(), "0 photos");
}

#[test]
fn each_refusal_says_what_went_wrong() {
    assert_eq!(
        IngestError::CannotCreate { path: "/x".into(), detail: "denied".into() }.message(),
        "could not create /x: denied"
    );
    assert_eq!(IngestError::NotAProject { path: "/x".into() }.message(), "/x is not a folder");
    assert_eq!(
        IngestError::Copy { from: "a.jpg".into(), to: "/p/001.jpg".into(), detail: "full".into() }.message(),
        "could not copy a.jpg to /p/001.jpg: full"
    );
    assert_eq!(
        IngestError::AlreadyAProject { path: "/p".into(), stills: 3 }.message(),
        "/p already holds 3 stills — open it instead of creating it"
    );
}

#[test]
fn a_dropped_folder_contributes_the_media_inside_it() {
    // A dropped folder hands over the files at its top level; its
    // subfolders are not descended into.
    let (report, names) = drop(
        &[],
        &[("export/one.jpg", true), ("export/two.jpg", true), ("export/notes.pdf", true)],
    );
    assert_eq!(report.images.len(), 2);
    assert_eq!(report.skipped.len(), 1);
    assert!(report.skipped[0].reason.contains("not a photo"));
    assert_eq!(names, ["001.jpg", "002.jpg"]);
}

#[test]
fn nothing_written_here_is_a_settings_file() {
    let (_, names) = drop(&[], &[("a.jpg", true), ("project.yaml", true)]);
    assert!(!names.iter().any(|n| n == "project.yaml"), "{names:?}");
    assert_eq!(names, ["001.jpg"]);
}
