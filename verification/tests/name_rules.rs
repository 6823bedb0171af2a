use epubimg::names::{dest_dir_name, file_stem, remove_marks, trim_spaces};

#[test]
fn bracket_marker_removed_without_fullname() {
    assert_eq!(dest_dir_name("Title【Vol.1】", false), "Title");
}

#[test]
fn bracket_marker_kept_with_fullname() {
    assert_eq!(dest_dir_name("Title【Vol.1】", true), "Title【Vol.1】");
}

#[test]
fn edition_marker_removed_and_trimmed() {
    assert_eq!(dest_dir_name("Book (Kindle Edition)", false), "Book");
}

#[test]
fn edition_marker_removal_keeps_the_space() {
    assert_eq!(remove_marks("Book (Kindle Edition)"), "Book ");
}

#[test]
fn several_markers_removed_left_to_right() {
    assert_eq!(remove_marks("a【b】c【d】e"), "ace");
}

#[test]
fn bracket_needs_content() {
    assert_eq!(remove_marks("【】x"), "【】x");
}

#[test]
fn unclosed_bracket_kept() {
    assert_eq!(remove_marks("Title【Vol.1"), "Title【Vol.1");
}

#[test]
fn marker_does_not_span_line_breaks() {
    assert_eq!(remove_marks("a【b\nc】d"), "a【b\nc】d");
}

#[test]
fn shortest_bracket_match_is_taken() {
    assert_eq!(remove_marks("x【a】b】y"), "xb】y");
}

#[test]
fn plain_parentheses_kept() {
    assert_eq!(remove_marks("Book (hardcover)"), "Book (hardcover)");
}

#[test]
fn edition_needs_text_before_the_tail() {
    assert_eq!(remove_marks("( Edition)"), "( Edition)");
}

#[test]
fn long_edition_marker_removed_whole() {
    assert_eq!(remove_marks("T (My Special Edition)"), "T ");
}

#[test]
fn fullname_is_still_trimmed() {
    assert_eq!(dest_dir_name("  padded  ", true), "padded");
}

#[test]
fn trim_removes_unicode_whitespace() {
    assert_eq!(trim_spaces("\u{3000} a b\t\n"), "a b");
}

#[test]
fn trim_keeps_inner_whitespace() {
    assert_eq!(trim_spaces("a  b"), "a  b");
}

#[test]
fn stem_drops_the_final_extension_only() {
    assert_eq!(file_stem("book.epub"), "book");
    assert_eq!(file_stem("a.tar.gz"), "a.tar");
}

#[test]
fn stem_of_dotless_name_is_the_name() {
    assert_eq!(file_stem("noext"), "noext");
}

#[test]
fn stem_of_hidden_file_is_the_whole_name() {
    assert_eq!(file_stem(".hidden"), ".hidden");
}

#[test]
fn empty_stem_sanitizes_to_empty() {
    assert_eq!(dest_dir_name("", false), "");
    assert_eq!(dest_dir_name("【all of it】", false), "");
}
