use epubimg::entries::{base_name, is_image};

#[test]
fn png_and_jpg_names_are_images() {
    assert!(is_image("img/a.png"));
    assert!(is_image("c.jpg"));
}

#[test]
fn other_names_are_not_images() {
    assert!(!is_image("img/b.txt"));
    assert!(!is_image("img/"));
    assert!(!is_image("png"));
    assert!(!is_image(""));
}

#[test]
fn the_match_is_case_sensitive() {
    assert!(!is_image("a.PNG"));
    assert!(!is_image("a.Jpg"));
}

#[test]
fn uppercase_and_jpeg_variants_are_not_selected() {
    assert!(!is_image("photo.jpeg"));
    assert!(!is_image("photo.gif"));
}

#[test]
fn basename_is_the_last_component() {
    assert_eq!(base_name("img/a.png"), Some("a.png".to_string()));
    assert_eq!(base_name("deep/nested/pic.jpg"), Some("pic.jpg".to_string()));
    assert_eq!(base_name("plain.png"), Some("plain.png".to_string()));
}

#[test]
fn trailing_separators_are_ignored() {
    assert_eq!(base_name("img/"), Some("img".to_string()));
    assert_eq!(base_name("a/b//"), Some("b".to_string()));
    assert_eq!(base_name("foo.txt/.//"), Some("foo.txt".to_string()));
}

#[test]
fn some_paths_have_no_basename() {
    assert_eq!(base_name(""), None);
    assert_eq!(base_name("/"), None);
    assert_eq!(base_name(".."), None);
    assert_eq!(base_name("a/.."), None);
    assert_eq!(base_name("."), None);
}
