use sharaku::error::{AppError, TemplateError};
use sharaku::path::{resolve_unique_work_path, resolve_work_path};
use sharaku::template::{render_template, sample_metadata, validate_template, WorkMetadata};

fn full_metadata() -> WorkMetadata {
    WorkMetadata {
        title: "My Title".to_string(),
        artist: Some("Artist A".to_string()),
        year: Some(2024),
        genre: Some("Manga".to_string()),
        circle: Some("Circle X".to_string()),
        origin: Some("Original".to_string()),
        work_type: None,
    }
}

fn partial_metadata() -> WorkMetadata {
    WorkMetadata {
        title: "My Title".to_string(),
        artist: None,
        year: None,
        genre: None,
        circle: None,
        origin: None,
        work_type: None,
    }
}

fn titled(title: &str) -> WorkMetadata {
    WorkMetadata { title: title.to_string(), ..partial_metadata() }
}

#[test]
fn validate_valid_template() {
    assert!(validate_template("{title}").is_ok());
    assert!(validate_template("{artist}/{title}").is_ok());
    assert!(validate_template("{year}/{genre}/{title}").is_ok());
    assert!(validate_template("prefix-{title}-suffix").is_ok());
}

#[test]
fn validate_missing_title() {
    let err = validate_template("{artist}/{genre}").unwrap_err();
    assert!(err.message().contains("{title}"));
}

#[test]
fn validate_unknown_placeholder() {
    let err = validate_template("{title}/{unknown}").unwrap_err();
    assert!(err.message().contains("未知のプレースホルダー"));
}

#[test]
fn validate_empty_template() {
    let err = validate_template("").unwrap_err();
    assert!(err.message().contains("空"));
}

#[test]
fn validate_whitespace_only() {
    let err = validate_template("   ").unwrap_err();
    assert!(err.message().contains("空"));
}

#[test]
fn validate_unclosed_placeholder() {
    let err = validate_template("{title").unwrap_err();
    assert!(err.message().contains("閉じられていない"));
}

#[test]
fn validate_empty_placeholder() {
    let err = validate_template("{}/{title}").unwrap_err();
    assert!(err.message().contains("空のプレースホルダー"));
}

#[test]
fn validate_reports_each_fault_kind() {
    assert!(matches!(validate_template("\t\n "), Err(AppError::InvalidTemplate(TemplateError::Empty))));
    assert!(matches!(validate_template("{title}/{year"), Err(AppError::InvalidTemplate(TemplateError::Unclosed))));
    assert!(matches!(validate_template("{title}{}"), Err(AppError::InvalidTemplate(TemplateError::EmptyPlaceholder))));
    assert!(matches!(validate_template("{artist}"), Err(AppError::InvalidTemplate(TemplateError::MissingTitle))));
    match validate_template("{title}/{author}") {
        Err(AppError::InvalidTemplate(TemplateError::Unknown(name))) => assert_eq!(name, "author"),
        _ => panic!("expected an unknown placeholder"),
    }
}

#[test]
fn validate_first_fault_wins() {
    // the unknown name comes before the missing title is known
    assert!(matches!(validate_template("{nope}"), Err(AppError::InvalidTemplate(TemplateError::Unknown(_)))));
    assert!(validate_template("  {type}/{title}  ").is_ok());
    assert!(validate_template("{circle}/{origin}/{title}").is_ok());
}

#[test]
fn render_all_fields() {
    let result = render_template("{artist}/{title}", &full_metadata());
    assert_eq!(result, "Artist A/My Title");
}

#[test]
fn render_with_none_fields() {
    let result = render_template("{artist}/{title}", &partial_metadata());
    assert_eq!(result, "Unknown/My Title");
}

#[test]
fn render_year_numeric() {
    let result = render_template("{year}/{title}", &full_metadata());
    assert_eq!(result, "2024/My Title");
}

#[test]
fn render_year_none() {
    let result = render_template("{year}/{title}", &partial_metadata());
    assert_eq!(result, "Unknown/My Title");
}

#[test]
fn render_sanitizes_forbidden_chars() {
    let meta = WorkMetadata {
        title: "My:Title*With?Bad<Chars>".to_string(),
        artist: Some("Art\\ist|Name\"Test".to_string()),
        year: None,
        genre: None,
        circle: None,
        origin: None,
        work_type: None,
    };
    let result = render_template("{artist}/{title}", &meta);
    assert!(!result.contains(':'));
    assert!(!result.contains('*'));
    assert!(!result.contains('?'));
    assert!(!result.contains('<'));
    assert!(!result.contains('>'));
    assert!(!result.contains('\\'));
    assert!(!result.contains('|'));
    assert!(!result.contains('"'));
}

#[test]
fn render_all_placeholders() {
    let result = render_template(
        "{artist}/{circle}/{genre}/{origin}/{year}/{title}",
        &full_metadata(),
    );
    assert_eq!(result, "Artist A/Circle X/Manga/Original/2024/My Title");
}

#[test]
fn render_with_literal_text() {
    let result = render_template("works/{artist} - {title}", &full_metadata());
    assert_eq!(result, "works/Artist A - My Title");
}

#[test]
fn render_artist_present_and_absent() {
    let meta = WorkMetadata {
        title: "My Work".to_string(),
        artist: Some("Artist".to_string()),
        ..partial_metadata()
    };
    assert_eq!(render_template("{artist}/{title}", &meta), "Artist/My Work");
    assert_eq!(render_template("{artist}/{title}", &titled("My Work")), "Unknown/My Work");
}

#[test]
fn render_forbidden_only_field_collapses() {
    let meta = titled(":*?\"<>\\|");
    assert_eq!(render_template("{title}", &meta), "_");
    assert_eq!(render_template("a/{title}/b", &meta), "a/_/b");
}

#[test]
fn render_empty_dot_and_dotdot_segments() {
    assert_eq!(render_template("/{title}", &titled("T")), "_/T");
    assert_eq!(render_template("./../{title}", &titled("T")), "_/_/T");
    assert_eq!(render_template("{title}", &titled("  ..  ")), "_");
    assert_eq!(render_template("{title}", &titled(" x ")), "x");
}

#[test]
fn render_unknown_and_unclosed_placeholders() {
    assert_eq!(render_template("{bogus}-{title}", &titled("T")), "Unknown-T");
    assert_eq!(render_template("{title}-{year", &titled("T")), "T-{year");
    assert_eq!(render_template("{type}", &partial_metadata()), "Unknown");
    let typed = WorkMetadata { work_type: Some("Folder".to_string()), ..titled("T") };
    assert_eq!(render_template("{type}/{title}", &typed), "Folder/T");
}

#[test]
fn render_negative_year() {
    let meta = WorkMetadata { year: Some(-45), ..titled("T") };
    assert_eq!(render_template("{year}", &meta), "-45");
    let meta = WorkMetadata { year: Some(i32::MIN), ..titled("T") };
    assert_eq!(render_template("{year}", &meta), "-2147483648");
    let meta = WorkMetadata { year: Some(0), ..titled("T") };
    assert_eq!(render_template("{year}", &meta), "0");
}

#[test]
fn sample_metadata_preview() {
    let m = sample_metadata();
    assert_eq!(render_template("{artist}/{year}/{title}", &m), "Artist Name/2025/My Artwork");
    assert_eq!(render_template("{genre}/{circle}/{origin}/{type}", &m), "Illustration/Circle/Original/Unknown");
}

#[test]
fn resolve_path_simple() {
    let path = resolve_work_path("/library", "{title}", &full_metadata());
    assert_eq!(path, "/library/My Title");
}

#[test]
fn resolve_path_nested() {
    let path = resolve_work_path("/library", "{artist}/{year}/{title}", &full_metadata());
    assert_eq!(path, "/library/Artist A/2024/My Title");
}

#[test]
fn resolve_path_stays_inside_root() {
    assert_eq!(resolve_work_path("/library", "../../{title}", &titled("T")), "/library/_/_/T");
    assert_eq!(resolve_work_path("/library", "{title}", &titled("../../etc")), "/library/....etc");
    assert_eq!(resolve_work_path("/library/", "{title}", &titled("..")), "/library/_");
}

#[test]
fn resolve_path_normalizes_root() {
    assert_eq!(resolve_work_path("/a/./b/../lib//", "{title}", &titled("T")), "/a/lib/T");
    assert_eq!(resolve_work_path("lib", "{title}", &titled("T")), "lib/T");
    assert_eq!(resolve_work_path("", "{title}", &titled("T")), "T");
    assert_eq!(resolve_work_path("/..", "{title}", &titled("T")), "T");
}

#[test]
fn resolve_unique_nonexistent_returns_base() {
    let path = resolve_unique_work_path("/tmp/unique", "{title}", &full_metadata(), false, 0x1234);
    assert_eq!(path, "/tmp/unique/My Title");
}

#[test]
fn resolve_unique_existing_gets_suffix() {
    let target = "/tmp/unique/My Title";
    let path = resolve_unique_work_path("/tmp/unique", "{title}", &full_metadata(), true, 0x00af);
    assert_ne!(path, target);
    assert!(path.starts_with("/tmp/unique/My Title_"));
    assert_eq!(path, "/tmp/unique/My Title_00af");
    let path = resolve_unique_work_path("/tmp/unique", "{title}", &full_metadata(), true, 0xbeef);
    assert_eq!(path, "/tmp/unique/My Title_beef");
}
