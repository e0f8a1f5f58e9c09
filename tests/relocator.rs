use sharaku::db::WorkDetail;
use sharaku::relocator::{
    cleanup_candidates, compute_relocation_plan, move_step, work_detail_to_metadata, MoveStage,
    RelocationTally,
};
use sharaku::template::render_template;

fn folder_work(id: i64, title: &str, path: &str, artist: Option<&str>) -> WorkDetail {
    WorkDetail {
        id,
        title: title.to_string(),
        path: path.to_string(),
        work_type: "folder".to_string(),
        page_count: 3,
        created_at: String::new(),
        artist: artist.map(|a| a.to_string()),
        year: None,
        genre: None,
        circle: None,
        origin: None,
    }
}

#[test]
fn preview_empty_when_no_folder_works() {
    let previews = compute_relocation_plan(&Vec::new(), "/library", "{title}", "Folder", &Vec::new());
    assert!(previews.is_empty());
}

#[test]
fn preview_empty_when_path_unchanged() {
    let works = vec![folder_work(1, "MyWork", "/library/MyWork", None)];
    let previews = compute_relocation_plan(&works, "/library", "{title}", "Folder", &Vec::new());
    assert!(previews.is_empty());
}

#[test]
fn preview_shows_changed_paths() {
    let works = vec![folder_work(1, "MyWork", "/library/old_location", Some("Artist"))];
    let previews =
        compute_relocation_plan(&works, "/library", "{artist}/{title}", "Folder", &Vec::new());
    assert_eq!(previews.len(), 1);
    assert_eq!(previews[0].old_path, "/library/old_location");
    assert_eq!(previews[0].new_path, "/library/Artist/MyWork");
    assert_eq!(previews[0].title, "MyWork");
}

#[test]
fn preview_multiple_works_different_paths() {
    let works = vec![
        folder_work(1, "Work1", "/library/old1", Some("A")),
        folder_work(2, "Work2", "/library/old2", Some("B")),
    ];
    let previews =
        compute_relocation_plan(&works, "/library", "{artist}/{title}", "Folder", &Vec::new());
    assert_eq!(previews.len(), 2);
}

#[test]
fn compute_plan_handles_path_collision() {
    let works = vec![
        folder_work(1, "SameTitle", "/library/folder_a", Some("Artist")),
        folder_work(2, "SameTitle", "/library/folder_b", Some("Artist")),
    ];
    let plan = compute_relocation_plan(&works, "/library", "{artist}/{title}", "Folder", &Vec::new());
    assert_eq!(plan.len(), 2);
    assert_ne!(plan[0].new_path, plan[1].new_path);
    assert_eq!(plan[0].new_path, "/library/Artist/SameTitle");
    assert_eq!(plan[1].new_path, "/library/Artist/SameTitle_0001");
    assert_eq!(plan[1].work_id, 2);
}

#[test]
fn compute_plan_skips_claimed_variants() {
    let works = vec![folder_work(7, "T", "/library/old", None)];
    let existing = vec![
        "/library/T".to_string(),
        "/library/T_0001".to_string(),
        "/library/T_0002".to_string(),
    ];
    let plan = compute_relocation_plan(&works, "/library", "{title}", "Folder", &existing);
    assert_eq!(plan.len(), 1);
    assert_eq!(plan[0].new_path, "/library/T_0003");
}

#[test]
fn compute_plan_keeps_a_work_in_its_own_folder() {
    let works = vec![folder_work(1, "T", "/library/T", None)];
    let existing = vec!["/library/T".to_string()];
    let plan = compute_relocation_plan(&works, "/library", "{title}", "Folder", &existing);
    assert!(plan.is_empty());
}

#[test]
fn relocation_twice_is_a_no_op() {
    let works = vec![
        folder_work(1, "One", "/library/x", Some("A")),
        folder_work(2, "Two", "/library/y", None),
    ];
    let plan = compute_relocation_plan(&works, "/library", "{type}/{artist}/{title}", "Folder", &Vec::new());
    assert_eq!(plan.len(), 2);
    let moved: Vec<WorkDetail> = works
        .iter()
        .map(|w| {
            let p = plan.iter().find(|e| e.work_id == w.id).unwrap();
            folder_work(w.id, &w.title, &p.new_path, w.artist.as_deref())
        })
        .collect();
    let on_disk: Vec<String> = plan.iter().map(|e| e.new_path.clone()).collect();
    let again = compute_relocation_plan(&moved, "/library", "{type}/{artist}/{title}", "Folder", &on_disk);
    assert!(again.is_empty());
}

#[test]
fn relocation_twice_after_a_collision_is_a_no_op() {
    let works = vec![
        folder_work(1, "X", "/library/a", None),
        folder_work(2, "X", "/library/b", None),
    ];
    let plan = compute_relocation_plan(&works, "/library", "{title}", "Folder", &Vec::new());
    assert_eq!(plan[0].new_path, "/library/X");
    assert_eq!(plan[1].new_path, "/library/X_0001");
    let moved = vec![
        folder_work(1, "X", "/library/X", None),
        folder_work(2, "X", "/library/X_0001", None),
    ];
    let on_disk = vec!["/library".to_string(), "/library/X".to_string(), "/library/X_0001".to_string()];
    let again = compute_relocation_plan(&moved, "/library", "{title}", "Folder", &on_disk);
    assert!(again.is_empty());
}

#[test]
fn a_work_keeps_its_own_variant_folder() {
    let works = vec![
        folder_work(1, "X", "/library/X", None),
        folder_work(2, "X", "/library/X_0002", None),
    ];
    let on_disk = vec!["/library/X".to_string(), "/library/X_0001".to_string(), "/library/X_0002".to_string()];
    let plan = compute_relocation_plan(&works, "/library", "{title}", "Folder", &on_disk);
    assert!(plan.is_empty());
}

#[test]
fn disk_check_ignores_letter_case() {
    let works = vec![folder_work(1, "T", "/library/old", None)];
    let existing = vec!["/library/t".to_string(), "/LIBRARY/T_0001".to_string()];
    let plan = compute_relocation_plan(&works, "/library", "{title}", "Folder", &existing);
    assert_eq!(plan[0].new_path, "/library/T_0002");
}

#[test]
fn normalized_text_spells_paths_as_plans_do() {
    assert_eq!(sharaku::path::normalized_text("/library/./a//b/../c/"), "/library/a/c");
    assert_eq!(sharaku::path::normalized_text("/library/"), "/library");
}

#[test]
fn metadata_from_stored_work() {
    let mut w = folder_work(1, "T", "/p", Some("A"));
    w.year = Some(1999);
    let m = work_detail_to_metadata(&w, "Manga");
    assert_eq!(render_template("{type}/{artist}/{year}/{title}", &m), "Manga/A/1999/T");
}

#[test]
fn move_steps_keep_old_files_until_the_store_agrees() {
    assert_eq!(move_step(MoveStage::CheckSource, false), MoveStage::Skipped);
    assert_eq!(move_step(MoveStage::CheckSource, true), MoveStage::CopyFiles);
    assert_eq!(move_step(MoveStage::CopyFiles, false), MoveStage::RemoveNew);
    assert_eq!(move_step(MoveStage::UpdateStore, false), MoveStage::RemoveNew);
    assert_eq!(move_step(MoveStage::RemoveNew, true), MoveStage::Failed);
    assert_eq!(move_step(MoveStage::UpdateStore, true), MoveStage::RemoveOld);
    assert_eq!(move_step(MoveStage::RemoveOld, false), MoveStage::CleanUp);
    assert_eq!(move_step(MoveStage::CleanUp, false), MoveStage::Relocated);
}

#[test]
fn relocation_tally_counts() {
    let mut t = RelocationTally::new();
    t.record(MoveStage::Relocated);
    t.record(MoveStage::Skipped);
    t.record(MoveStage::Failed);
    t.record(MoveStage::Relocated);
    assert_eq!((t.relocated, t.skipped, t.failed), (2, 1, 1));
}

#[test]
fn cleanup_candidates_stop_below_root() {
    assert_eq!(
        cleanup_candidates("/tmp/library/a/b/c", "/tmp/library"),
        vec!["/tmp/library/a/b".to_string(), "/tmp/library/a".to_string()]
    );
    assert!(cleanup_candidates("/tmp/library/artist", "/tmp/library").is_empty());
    assert!(cleanup_candidates("/elsewhere/a/b", "/tmp/library").is_empty());
    assert_eq!(cleanup_candidates("lib/a/b", "lib"), vec!["lib/a".to_string()]);
}
