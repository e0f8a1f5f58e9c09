use sharaku::db::listing_order;
use sharaku::error::{AppError, TemplateError};
use sharaku::scanner::image_title;
use sharaku::settings::{folder_label, image_label, label_for_type};
use sharaku::template::{preview_template, template_to_store};
use sharaku::viewer::page_path;

#[test]
fn type_label_defaults() {
    assert_eq!(image_label(None), "Image");
    assert_eq!(folder_label(None), "Folder");
}

#[test]
fn type_label_set_and_get() {
    assert_eq!(image_label(Some("イラスト".to_string())), "イラスト");
    assert_eq!(folder_label(Some("漫画".to_string())), "漫画");
}

#[test]
fn resolve_type_label_uses_settings() {
    assert_eq!(label_for_type("folder", "Image".to_string(), "漫画".to_string()), "漫画");
    assert_eq!(label_for_type("image", "Image".to_string(), "漫画".to_string()), "Image");
    assert_eq!(label_for_type("other", "Image".to_string(), "漫画".to_string()), "other");
}

#[test]
fn listing_order_choices() {
    assert_eq!(listing_order("title", "asc"), ("title", "ASC"));
    assert_eq!(listing_order("title", "desc"), ("title", "DESC"));
    assert_eq!(listing_order("invalid_column", "asc"), ("created_at", "ASC"));
    assert_eq!(listing_order("created_at", "ASC"), ("created_at", "DESC"));
}

#[test]
fn template_preview_and_storage() {
    assert_eq!(preview_template("{artist}/{title}").ok().unwrap(), "Artist Name/My Artwork");
    assert!(preview_template("{artist}").is_err());
    assert_eq!(template_to_store("  {artist}/{title}  ").ok().unwrap(), "{artist}/{title}");
    assert!(matches!(
        template_to_store("   "),
        Err(AppError::InvalidTemplate(TemplateError::Empty))
    ));
    assert!(matches!(
        template_to_store(""),
        Err(AppError::InvalidTemplate(TemplateError::Empty))
    ));
    assert!(template_to_store(" {nope} ").is_err());
}

#[test]
fn image_titles_are_file_stems() {
    assert_eq!(image_title("/pics/cover.final.png"), "cover.final");
    assert_eq!(image_title("/pics/.hidden"), ".hidden");
    assert_eq!(image_title("README"), "README");
    assert_eq!(image_title("/"), "");
}

#[test]
fn viewer_pages() {
    let pages = vec!["/w/1.jpg".to_string(), "/w/2.jpg".to_string()];
    assert_eq!(page_path(true, &"/w".to_string(), &pages, 1), Some("/w/2.jpg".to_string()));
    assert_eq!(page_path(true, &"/w".to_string(), &pages, 2), None);
    assert_eq!(page_path(false, &"/img.png".to_string(), &pages, 0), Some("/img.png".to_string()));
    assert_eq!(page_path(false, &"/img.png".to_string(), &pages, 1), None);
}
