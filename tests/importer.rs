use sharaku::error::{AppError, ImportFailure};
use sharaku::importer::{
    discovered_folder, import_destination, import_step, order_pages, parse_folder_name,
    progress_due, BulkImportSummary, ImportMode, ImportRequest, ImportStage,
};
use sharaku::path::{paths_overlap, preview_import_path};
use sharaku::template::WorkMetadata;

fn request(source: &str, mode: ImportMode) -> ImportRequest {
    ImportRequest {
        source_path: source.to_string(),
        title: "My Work".to_string(),
        artist: Some("Artist".to_string()),
        year: None,
        genre: None,
        circle: None,
        origin: None,
        mode,
    }
}

fn names(v: &[&str]) -> Vec<String> {
    v.iter().map(|s| s.to_string()).collect()
}

#[test]
fn parse_bracket_pattern() {
    let result = parse_folder_name("[Artist Name] Work Title");
    assert_eq!(result.title, "Work Title");
    assert_eq!(result.artist.as_deref(), Some("Artist Name"));
}

#[test]
fn parse_dash_pattern() {
    let result = parse_folder_name("Artist Name - Work Title");
    assert_eq!(result.title, "Work Title");
    assert_eq!(result.artist.as_deref(), Some("Artist Name"));
}

#[test]
fn parse_plain_name() {
    let result = parse_folder_name("Just A Title");
    assert_eq!(result.title, "Just A Title");
    assert_eq!(result.artist, None);
}

#[test]
fn parse_bracket_empty_artist() {
    let result = parse_folder_name("[] Title");
    assert_eq!(result.title, "[] Title");
    assert_eq!(result.artist, None);
}

#[test]
fn parse_bracket_empty_title() {
    let result = parse_folder_name("[Artist]");
    assert_eq!(result.title, "[Artist]");
    assert_eq!(result.artist, None);
}

#[test]
fn parse_dash_with_no_spaces() {
    let result = parse_folder_name("no-dash-pattern");
    assert_eq!(result.title, "no-dash-pattern");
    assert_eq!(result.artist, None);
}

#[test]
fn parse_japanese_bracket() {
    let result = parse_folder_name("[サークル名] 作品タイトル");
    assert_eq!(result.title, "作品タイトル");
    assert_eq!(result.artist.as_deref(), Some("サークル名"));
}

#[test]
fn parse_japanese_dash() {
    let result = parse_folder_name("アーティスト - 作品名");
    assert_eq!(result.title, "作品名");
    assert_eq!(result.artist.as_deref(), Some("アーティスト"));
}

#[test]
fn parse_bracket_falls_back_to_dash() {
    let result = parse_folder_name("[] A - B");
    assert_eq!(result.title, "B");
    assert_eq!(result.artist.as_deref(), Some("[] A"));
    let result = parse_folder_name("[unclosed - T");
    assert_eq!(result.title, "T");
    assert_eq!(result.artist.as_deref(), Some("[unclosed"));
    let result = parse_folder_name("  - T");
    assert_eq!(result.title, "  - T");
    assert_eq!(result.artist, None);
}

#[test]
fn list_images_finds_image_files() {
    let images = order_pages(&names(&["01.jpg", "02.png", "readme.txt"]));
    assert_eq!(images.len(), 2);
    assert!(images[0] <= images[1]);
}

#[test]
fn list_images_empty_folder() {
    let images = order_pages(&Vec::new());
    assert!(images.is_empty());
}

#[test]
fn list_images_sorted_order() {
    let images = order_pages(&names(&["c.jpg", "a.jpg", "b.jpg"]));
    assert_eq!(images.len(), 3);
    assert_eq!(images[0], "a.jpg");
    assert_eq!(images[1], "b.jpg");
    assert_eq!(images[2], "c.jpg");
}

#[test]
fn list_images_natural_sort_order() {
    let images = order_pages(&names(&[
        "page1.jpg",
        "page2.jpg",
        "page10.jpg",
        "page20.jpg",
        "page3.jpg",
    ]));
    assert_eq!(images.len(), 5);
    assert_eq!(images[0], "page1.jpg");
    assert_eq!(images[1], "page2.jpg");
    assert_eq!(images[2], "page3.jpg");
    assert_eq!(images[3], "page10.jpg");
    assert_eq!(images[4], "page20.jpg");
}

#[test]
fn order_pages_keeps_duplicates_and_mixed_case() {
    let images = order_pages(&names(&["B.PNG", "notes", "a.Jpeg", "a.Jpeg", "x.gif.txt"]));
    // capitals sort before small letters, character by character
    assert_eq!(images, names(&["B.PNG", "a.Jpeg", "a.Jpeg"]));
}

#[test]
fn order_pages_is_stable() {
    // natural order skips white space, so these two compare equal and keep their order
    assert_eq!(order_pages(&names(&["a1.jpg", "a 1.jpg"])), names(&["a1.jpg", "a 1.jpg"]));
    assert_eq!(order_pages(&names(&["a 1.jpg", "a1.jpg"])), names(&["a 1.jpg", "a1.jpg"]));
}

#[test]
fn preview_path_with_template() {
    let metadata = WorkMetadata {
        title: "My Work".to_string(),
        artist: Some("Artist".to_string()),
        year: None,
        genre: None,
        circle: None,
        origin: None,
        work_type: None,
    };
    let result = preview_import_path("/library", "{artist}/{title}", &metadata);
    assert_eq!(result, "/library/Artist/My Work");
}

#[test]
fn paths_overlap_identical() {
    assert!(paths_overlap("/a/b", "/a/b"));
}

#[test]
fn paths_overlap_source_contains_dest() {
    assert!(paths_overlap("/a", "/a/b"));
}

#[test]
fn paths_overlap_dest_contains_source() {
    assert!(paths_overlap("/a/b/c", "/a/b"));
}

#[test]
fn paths_overlap_disjoint() {
    assert!(!paths_overlap("/a/b", "/c/d"));
}

#[test]
fn paths_overlap_partial_name_no_overlap() {
    assert!(!paths_overlap("/library/art", "/library/artist"));
}

#[test]
fn paths_overlap_by_components() {
    assert!(paths_overlap("/a//b/./", "/a/b"));
    assert!(!paths_overlap("/a", "a"));
    assert!(paths_overlap("", "x"));
    assert!(!paths_overlap("./a", "a"));
}

#[test]
fn import_destination_checks_in_order() {
    let root = Some("/library".to_string());
    let tmpl = Some("{artist}/{title}".to_string());
    let q = request("/src/folder", ImportMode::Copy);
    assert!(matches!(
        import_destination(&q, false, 3, &root, &tmpl, "Folder", false, 0),
        Err(AppError::ImportError(ImportFailure::NotADirectory))
    ));
    assert!(matches!(
        import_destination(&q, true, 0, &root, &tmpl, "Folder", false, 0),
        Err(AppError::ImportError(ImportFailure::NoImages))
    ));
    assert!(matches!(
        import_destination(&q, true, 3, &None, &tmpl, "Folder", false, 0),
        Err(AppError::ImportError(ImportFailure::NoLibraryRoot))
    ));
    assert!(matches!(
        import_destination(&q, true, 3, &root, &None, "Folder", false, 0),
        Err(AppError::ImportError(ImportFailure::NoTemplate))
    ));
    match import_destination(&q, true, 3, &root, &tmpl, "Folder", false, 0) {
        Ok(d) => assert_eq!(d, "/library/Artist/My Work"),
        _ => panic!("expected a destination"),
    }
    match import_destination(&q, true, 3, &root, &tmpl, "Folder", true, 0x0c0f) {
        Ok(d) => assert_eq!(d, "/library/Artist/My Work_0c0f"),
        _ => panic!("expected a destination"),
    }
}

#[test]
fn import_destination_refuses_overlap() {
    let tmpl = Some("{title}".to_string());
    let inside = request("/library/My Work/sub", ImportMode::Move);
    assert!(matches!(
        import_destination(&inside, true, 1, &Some("/library".to_string()), &tmpl, "Folder", false, 0),
        Err(AppError::ImportError(ImportFailure::Overlap))
    ));
    let above = request("/library", ImportMode::Copy);
    assert!(matches!(
        import_destination(&above, true, 1, &Some("/library".to_string()), &tmpl, "Folder", false, 0),
        Err(AppError::ImportError(ImportFailure::Overlap))
    ));
    let error = AppError::ImportError(ImportFailure::Overlap);
    assert!(error.message().contains("重複"));
}

#[test]
fn import_rollback_after_failed_registration() {
    for mode in [ImportMode::Copy, ImportMode::Move] {
        let stage = import_step(ImportStage::Register, mode, false);
        assert_eq!(stage, ImportStage::RollBack);
        assert_eq!(import_step(stage, mode, true), ImportStage::Failed);
        assert_eq!(import_step(ImportStage::CopyImages, mode, false), ImportStage::RollBack);
    }
}

#[test]
fn import_stages_in_order() {
    let mut stage = ImportStage::MakeThumbnail;
    let mut seen = vec![stage];
    while stage != ImportStage::Succeeded {
        stage = import_step(stage, ImportMode::Move, true);
        seen.push(stage);
    }
    assert_eq!(
        seen,
        vec![
            ImportStage::MakeThumbnail,
            ImportStage::CreateDestination,
            ImportStage::CopyImages,
            ImportStage::Register,
            ImportStage::RemoveSources,
            ImportStage::Succeeded,
        ]
    );
    assert_eq!(import_step(ImportStage::Register, ImportMode::Copy, true), ImportStage::Succeeded);
    assert_eq!(import_step(ImportStage::MakeThumbnail, ImportMode::Copy, false), ImportStage::Failed);
    assert_eq!(import_step(ImportStage::RemoveSources, ImportMode::Move, false), ImportStage::Succeeded);
}

#[test]
fn bulk_summary_counts() {
    let mut s = BulkImportSummary::new();
    s.record(true);
    s.record(false);
    s.record(true);
    assert_eq!((s.succeeded, s.failed), (2, 1));
}

#[test]
fn discovery_reports_every_fifty() {
    assert!(!progress_due(1));
    assert!(!progress_due(49));
    assert!(progress_due(50));
    assert!(progress_due(100));
    assert!(progress_due(0));
}

#[test]
fn discovered_folder_needs_images() {
    assert!(discovered_folder("/x/[A] T".to_string(), "[A] T".to_string(), 0, false).is_none());
    let d = discovered_folder("/x/[A] T".to_string(), "[A] T".to_string(), 4, true).unwrap();
    assert_eq!(d.path, "/x/[A] T");
    assert_eq!(d.image_count, 4);
    assert!(d.already_registered);
    assert_eq!(d.parsed_metadata.title, "T");
    assert_eq!(d.parsed_metadata.artist.as_deref(), Some("A"));
}
