use sharaku::scanner::is_image_file;

#[test]
fn recognizes_supported_extensions() {
    for ext in &["jpg", "jpeg", "png", "gif", "webp", "bmp"] {
        let name = format!("photo.{}", ext);
        assert!(is_image_file(&name), "should accept .{}", ext);
    }
}

#[test]
fn recognizes_uppercase_and_mixed_case() {
    assert!(is_image_file("photo.JPG"));
    assert!(is_image_file("photo.Png"));
    assert!(is_image_file("photo.GIF"));
    assert!(is_image_file("photo.WeBp"));
}

#[test]
fn rejects_non_image_extensions() {
    for ext in &["pdf", "zip", "txt", "mp4", "doc", "rs"] {
        let name = format!("file.{}", ext);
        assert!(!is_image_file(&name), "should reject .{}", ext);
    }
}

#[test]
fn rejects_no_extension() {
    assert!(!is_image_file("README"));
    assert!(!is_image_file("Makefile"));
}

#[test]
fn rejects_hidden_files_without_image_ext() {
    assert!(!is_image_file(".gitignore"));
    assert!(!is_image_file(".hidden"));
}

#[test]
fn accepts_hidden_files_with_image_ext() {
    assert!(is_image_file(".photo.jpg"));
}

#[test]
fn reads_the_last_component() {
    assert!(is_image_file("/a/b.jpg/"));
    assert!(!is_image_file("/a.jpg/.."));
    assert!(!is_image_file("/"));
    assert!(!is_image_file("dir.png/file"));
    assert!(!is_image_file("file."));
}
