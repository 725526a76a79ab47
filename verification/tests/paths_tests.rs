use dataset_tag_store::paths::{is_image_file, tag_file_path};

#[test]
fn image_extensions_are_a_closed_set() {
    for name in ["a.jpg", "a.jpeg", "a.png", "a.gif", "a.bmp", "a.tiff", "a.tif", "a.webp"] {
        assert!(is_image_file(name), "{name} should qualify");
    }
    for name in ["readme.md", "a.txt", "a.svg", "archive.zip", "noext"] {
        assert!(!is_image_file(name), "{name} should not qualify");
    }
}

#[test]
fn extension_match_is_case_sensitive() {
    assert!(!is_image_file("a.PNG"));
    assert!(!is_image_file("a.Jpg"));
}

#[test]
fn a_leading_dot_is_not_an_extension() {
    assert!(!is_image_file(".png"));
    assert!(is_image_file(".hidden.png"));
}

#[test]
fn only_the_final_component_counts() {
    assert!(is_image_file("some/dir/photo.webp"));
    assert!(!is_image_file("some.png/notes"));
}

#[test]
fn tag_file_path_replaces_the_extension() {
    assert_eq!(tag_file_path("a.png"), "a.txt");
    assert_eq!(tag_file_path("shoot/raw/img_001.jpeg"), "shoot/raw/img_001.txt");
    assert_eq!(tag_file_path("archive.tar.gz"), "archive.tar.txt");
}

#[test]
fn tag_file_path_appends_when_there_is_no_extension() {
    assert_eq!(tag_file_path("noext"), "noext.txt");
    assert_eq!(tag_file_path("dir.d/noext"), "dir.d/noext.txt");
    assert_eq!(tag_file_path(".png"), ".png.txt");
}
