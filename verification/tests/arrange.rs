use std::collections::BTreeMap;

use spoonstill_app::arrange::{
    destination_name, move_to, moved_report, nth_name, parked_among, parked_name, parked_parts,
    recovery_target, remove, renumber_plan, scenes, ArrangeError, Moved, Removed, Scene, REMOVED_DIR,
};

/// A project folder held in memory: file name to contents. Names under
/// `removed/` are in the removed folder.
struct Folder(BTreeMap<String, String>);

impl Folder {
    fn new(scenes: &[(&str, &[&str])]) -> Folder {
        let mut files = BTreeMap::new();
        for (stem, extensions) in scenes {
            for extension in *extensions {
                let name = format!("{stem}.{extension}");
                files.insert(name.clone(), name);
            }
        }
        Folder(files)
    }

    fn listing(&self) -> Vec<String> {
        self.0.keys().filter(|n| !n.contains('/')).cloned().collect()
    }

    fn all(&self) -> Result<Vec<Scene>, ArrangeError> {
        scenes(&self.listing())
    }

    fn contents(&self) -> Vec<String> {
        self.all()
            .expect("numbered")
            .iter()
            .map(|scene| self.0[&scene.files[0]].clone())
            .collect()
    }

    fn rename(&mut self, from: &str, to: &str) {
        assert!(!self.0.contains_key(to), "a rename landed on {to}");
        let content = self.0.remove(from).expect("the file is there");
        self.0.insert(to.to_owned(), content);
    }

    fn free(&self, name: &str, fallback: &str) -> String {
        if !self.0.contains_key(name) {
            return name.to_owned();
        }
        let mut nth = 2;
        loop {
            let next = nth_name(name, fallback, nth);
            if !self.0.contains_key(&next) {
                return next;
            }
            nth += 1;
        }
    }

    fn renumber(&mut self, order: &Vec<Scene>) {
        let plan = renumber_plan(order);
        let mut staged = Vec::new();
        for step in &plan {
            let parked = self.free(&step.parked, "parked");
            self.rename(&step.file, &parked);
            staged.push((parked, step.destination.clone()));
        }
        for (parked, destination) in staged {
            self.rename(&parked, &destination);
        }
    }

    fn recover(&mut self) -> usize {
        let names: Vec<String> = self.listing();
        let mut restored = 0;
        for parked in parked_among(&names) {
            let destination = destination_name(&parked.wanted, &parked.extension);
            let origin = destination_name(&parked.from, &parked.extension);
            let target = recovery_target(
                &parked,
                self.0.contains_key(&destination),
                self.0.contains_key(&origin),
            );
            if let Some(target) = target {
                self.rename(&parked.name, &target);
                restored += 1;
            }
        }
        restored
    }

    fn move_to(&mut self, id: &str, to: usize) -> Result<Moved, ArrangeError> {
        self.recover();
        let all = self.all()?;
        let plan = move_to(&all, id, to)?;
        self.renumber(&plan.order);
        let after = self.all()?;
        Ok(moved_report(plan.was, plan.from, plan.target, after))
    }

    fn remove(&mut self, id: &str) -> Result<Removed, ArrangeError> {
        self.recover();
        let all = self.all()?;
        let (at, kept) = remove(&all, id)?;
        let scene = &all[at];
        for file in &scene.files {
            let wanted = format!("{REMOVED_DIR}/{file}");
            let mut destination = wanted.clone();
            let mut nth = 2;
            while self.0.contains_key(&destination) {
                destination = format!("{REMOVED_DIR}/{}", nth_name(file, "scene", nth));
                nth += 1;
            }
            self.rename(file, &destination);
        }
        self.renumber(&kept);
        Ok(Removed {
            id: scene.id.clone(),
            moved_to: REMOVED_DIR.to_owned(),
            files: scene.files.len(),
            remaining: kept.len(),
        })
    }

    fn removed(&self) -> Vec<String> {
        self.0
            .keys()
            .filter_map(|n| n.strip_prefix("removed/"))
            .map(str::to_owned)
            .collect()
    }
}

fn three() -> Folder {
    Folder::new(&[
        ("001", &["jpeg", "txt"]),
        ("002", &["jpeg", "txt"]),
        ("003", &["jpeg"]),
    ])
}

#[test]
fn a_scene_is_its_still_and_everything_sharing_its_stem() {
    let project = three();
    let all = project.all().expect("numbered");

    assert_eq!(all.len(), 3);
    assert_eq!(all[0].id, "001");
    assert_eq!(all[0].files.len(), 2, "the still and its script");
    assert_eq!(all[2].files.len(), 1, "a silent scene is just the still");
    assert!(all[0].files[0].ends_with(".jpeg"), "the still leads");
}

#[test]
fn scenes_come_back_in_render_order() {
    let project = Folder::new(&[("010", &["jpeg"]), ("002", &["jpeg"]), ("1", &["jpeg"])]);
    let all = project.all().expect("numbered");
    let ids: Vec<&str> = all.iter().map(|scene| scene.id.as_str()).collect();
    assert_eq!(ids, vec!["1", "002", "010"], "2 before 10, not '10' before '2'");
}

#[test]
fn removing_a_scene_keeps_its_files_and_closes_the_gap() {
    let mut project = three();
    let removed = project.remove("002").expect("a scene that is there");

    assert_eq!(removed.id, "002");
    assert_eq!(removed.files, 2, "the script went with the still");
    assert_eq!(removed.remaining, 2);
    assert_eq!(project.listing(), vec!["001.jpeg", "001.txt", "002.jpeg"]);
    assert_eq!(project.contents(), vec!["001.jpeg", "003.jpeg"]);
    assert_eq!(project.removed(), vec!["002.jpeg", "002.txt"]);
}

#[test]
fn removing_twice_never_overwrites_what_was_removed_before() {
    let mut project = Folder::new(&[
        ("001", &["jpeg"]),
        ("002", &["jpeg"]),
        ("003", &["jpeg"]),
        ("004", &["jpeg"]),
    ]);
    project.remove("003").expect("first");
    project.remove("003").expect("second, a different photograph");

    let kept: Vec<String> = project
        .0
        .iter()
        .filter(|(name, _)| name.starts_with("removed/"))
        .map(|(_, content)| content.clone())
        .collect();
    assert_eq!(kept.len(), 2, "both are kept");
    assert!(kept.contains(&"003.jpeg".to_owned()));
    assert!(kept.contains(&"004.jpeg".to_owned()), "{kept:?}");
}

#[test]
fn a_scene_moves_to_a_new_position_and_takes_its_script_with_it() {
    let mut project = Folder::new(&[
        ("001", &["jpeg"]),
        ("002", &["jpeg"]),
        ("003", &["jpeg", "txt"]),
        ("004", &["jpeg"]),
    ]);
    project.move_to("003", 1).expect("to the front");

    assert_eq!(
        project.contents(),
        vec!["003.jpeg", "001.jpeg", "002.jpeg", "004.jpeg"]
    );
    let all = project.all().expect("numbered");
    assert_eq!(all[0].files.len(), 2, "the script followed its still");
    assert_eq!(project.0[&all[0].files[1]], "003.txt", "and it is the right script");
    assert_eq!(all[1].files.len(), 1);
}

#[test]
fn a_move_reports_which_scene_went_where_and_what_went_with_it() {
    let mut project = Folder::new(&[
        ("001", &["jpeg"]),
        ("002", &["jpeg"]),
        ("003", &["jpeg", "txt"]),
        ("004", &["jpeg"]),
    ]);
    let moved = project.move_to("003", 1).expect("to the front");

    assert_eq!(moved.was, "003");
    assert_eq!(moved.now, "001");
    assert_eq!((moved.from, moved.to), (3, 1));
    assert_eq!(moved.scenes.len(), 4);
    assert_eq!(moved.files.len(), 2, "the whole scene travelled");
    assert!(moved.files.iter().all(|f| f.starts_with("001.")), "{:?}", moved.files);
    assert_eq!(project.0[&moved.files[1]], "003.txt");
}

#[test]
fn a_move_past_the_end_reports_where_it_actually_landed() {
    let mut project = three();
    let moved = project.move_to("001", 99).expect("clamped");
    assert_eq!((moved.from, moved.to), (1, 3));
    assert_eq!(moved.was, "001");
    assert_eq!(moved.now, "003");
}

#[test]
fn moving_backwards_and_to_the_end_both_work() {
    let mut project = Folder::new(&[("001", &["jpeg"]), ("002", &["jpeg"]), ("003", &["jpeg"])]);

    project.move_to("001", 3).expect("to the end");
    assert_eq!(project.contents(), vec!["002.jpeg", "003.jpeg", "001.jpeg"]);

    project.move_to("003", 1).expect("the one now third, to the front");
    assert_eq!(project.contents(), vec!["001.jpeg", "002.jpeg", "003.jpeg"]);
}

#[test]
fn a_position_past_the_end_means_the_end() {
    let mut project = three();
    project.move_to("001", 99).expect("clamped, not refused");
    assert_eq!(project.contents(), vec!["002.jpeg", "003.jpeg", "001.jpeg"]);

    project.move_to("003", 0).expect("clamped the other way");
    assert_eq!(project.contents(), vec!["001.jpeg", "002.jpeg", "003.jpeg"]);
}

#[test]
fn moving_a_scene_to_its_own_position_changes_nothing() {
    let mut project = three();
    let before = project.contents();
    project.move_to("002", 2).expect("no-op");
    assert_eq!(project.contents(), before);
    assert_eq!(project.listing().len(), 5);
}

#[test]
fn an_id_is_matched_by_its_number_not_its_zeros() {
    let mut project = three();
    assert!(project.move_to("2", 1).is_ok(), "no leading zeros");
    assert_eq!(project.contents()[0], "002.jpeg");
}

#[test]
fn a_scene_that_is_not_there_says_how_many_there_are() {
    let mut project = three();
    let error = project.remove("009").expect_err("no scene 9");
    let said = error.message();
    assert!(said.contains("009"), "{said}");
    assert!(said.contains("3 of them"), "{said}");
    assert_eq!(said, "there is no scene 009 — this project has 3 of them");
}

#[test]
fn a_project_that_does_not_use_numbers_is_refused_rather_than_renumbered() {
    let project = Folder::new(&[("opening", &["jpeg"]), ("middle", &["jpeg"])]);
    let error = project.all().expect_err("not numbered");
    assert!(matches!(error, ArrangeError::NotNumbered { .. }), "{error:?}");
    let said = error.message();
    assert!(said.contains("still add"), "it says how to make it editable: {said}");
    assert!(said.starts_with("middle.jpeg is not a numbered scene"), "{said}");
    assert_eq!(project.listing().len(), 2, "and nothing was touched");
}

#[test]
fn renumbering_never_renames_onto_a_file_that_is_still_wanted() {
    let mut project = Folder::new(&[
        ("001", &["jpeg"]),
        ("002", &["jpeg"]),
        ("003", &["jpeg"]),
        ("004", &["jpeg"]),
    ]);
    project.remove("001").expect("the first one");

    assert_eq!(project.contents(), vec!["002.jpeg", "003.jpeg", "004.jpeg"]);
    assert!(
        project.listing().iter().all(|name| !name.contains("arranging")),
        "no staging file is left behind: {:?}",
        project.listing()
    );
}

#[test]
fn the_width_grows_rather_than_the_order_breaking() {
    let names: Vec<String> = (1..=11).map(|n| format!("{n:03}")).collect();
    let spec: Vec<(&str, &[&str])> = names.iter().map(|n| (n.as_str(), &["jpeg"][..])).collect();
    let mut project = Folder::new(&spec);

    project.move_to("011", 1).expect("the last one, to the front");
    let listing = project.listing();
    assert_eq!(listing.len(), 11);
    assert!(listing.contains(&"001.jpeg".to_owned()));
    assert!(listing.contains(&"011.jpeg".to_owned()));
    assert_eq!(project.contents()[0], "011.jpeg");
}

#[test]
fn an_interrupted_renumber_is_finished_when_its_destination_is_free() {
    let mut project = Folder::new(&[]);
    project
        .0
        .insert(parked_name("003", "002", "jpg"), "the third photograph".to_owned());

    assert_eq!(project.recover(), 1);
    assert_eq!(project.0["002.jpg"], "the third photograph");
    assert!(project.listing().iter().all(|n| !n.starts_with(".arranging-")));
}

#[test]
fn an_interrupted_renumber_is_undone_when_its_destination_is_taken() {
    let mut project = Folder::new(&[("002", &["jpg"])]);
    project
        .0
        .insert(parked_name("003", "002", "jpg"), "the third photograph".to_owned());

    assert_eq!(project.recover(), 1);
    assert_eq!(project.0["002.jpg"], "002.jpg");
    assert_eq!(project.0["003.jpg"], "the third photograph");
}

#[test]
fn leftovers_from_the_older_name_format_are_still_recovered() {
    let mut project = Folder::new(&[]);
    project
        .0
        .insert(".arranging-0007-jpg.jpg".to_owned(), "the seventh photograph".to_owned());

    assert_eq!(project.recover(), 1);
    assert_eq!(project.0["0007.jpg"], "the seventh photograph");
}

#[test]
fn a_file_with_nowhere_safe_to_go_is_left_alone_rather_than_overwriting() {
    let mut project = Folder::new(&[("002", &["jpg"]), ("003", &["jpg"])]);
    project.0.insert(parked_name("003", "002", "jpg"), "a third copy".to_owned());

    assert_eq!(project.recover(), 0);
    assert_eq!(project.0["002.jpg"], "002.jpg");
    assert_eq!(project.0["003.jpg"], "003.jpg");
    assert_eq!(
        project.listing().iter().filter(|n| n.starts_with(".arranging-")).count(),
        1
    );
}

#[test]
fn recovery_does_nothing_to_a_folder_that_is_not_mid_rename() {
    let mut project = Folder::new(&[("001", &["jpg", "txt"]), ("002", &["jpg"])]);
    assert_eq!(project.recover(), 0);
    assert_eq!(project.all().expect("scenes").len(), 2);
}

#[test]
fn a_parked_name_reads_back_as_written() {
    let name = parked_name("0012", "0003", "jpeg");
    assert_eq!(name, ".arranging-0012-to-0003.jpeg");
    assert_eq!(
        parked_parts(&name),
        Some(("0012".to_owned(), "0003".to_owned(), "jpeg".to_owned()))
    );
    assert_eq!(
        parked_parts(".arranging-0012-to-0003-2.jpeg"),
        Some(("0012".to_owned(), "0003".to_owned(), "jpeg".to_owned())),
        "a collision suffix is not part of the number"
    );
    assert_eq!(parked_parts("0012.jpeg"), None);
    assert_eq!(parked_parts(".arranging-nodot"), None);
}

#[test]
fn the_copies_of_a_removed_scene_are_numbered() {
    assert_eq!(nth_name("003.jpeg", "scene", 2), "003-2.jpeg");
    assert_eq!(nth_name("notes", "scene", 3), "notes-3.");
}

#[test]
fn a_renumber_plan_names_every_file_twice() {
    let project = three();
    let all = project.all().expect("numbered");
    let plan = renumber_plan(&all);
    assert_eq!(plan.len(), 5);
    assert_eq!(plan[0].file, "001.jpeg");
    assert_eq!(plan[0].parked, ".arranging-001-to-001.jpeg");
    assert_eq!(plan[0].destination, "001.jpeg");
    assert_eq!(plan[4].file, "003.jpeg");
    assert_eq!(plan[4].destination, "003.jpeg");
}

#[test]
fn a_parked_name_that_collided_still_reads_back() {
    assert_eq!(
        parked_parts(".arranging-003-to-001-2.jpg"),
        Some(("003".to_string(), "001".to_string(), "jpg".to_string()))
    );
    assert_eq!(
        parked_parts(&nth_name(&parked_name("012", "004", "txt"), "parked", 3)),
        Some(("012".to_string(), "004".to_string(), "txt".to_string()))
    );
}
