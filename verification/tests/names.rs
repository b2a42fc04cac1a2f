use rarmerge::names::{is_archive_name, is_dotted, join, parent_dir};

#[test]
fn archive_names_end_in_dot_rar() {
    assert!(is_archive_name("a.rar"));
    assert!(is_archive_name("movie.part1.rar"));
    assert!(!is_archive_name(".rar"));
    assert!(!is_archive_name("rar"));
    assert!(!is_archive_name("a.RAR"));
    assert!(!is_archive_name("a.rar.txt"));
    assert!(!is_archive_name(""));
}

#[test]
fn join_puts_one_separator() {
    assert_eq!(join("/data/in", "a.txt"), "/data/in/a.txt");
    assert_eq!(join("/data/in/", "a.txt"), "/data/in/a.txt");
    assert_eq!(join("", "a.txt"), "a.txt");
    assert_eq!(join("/", "a.txt"), "/a.txt");
}

#[test]
fn parent_dir_reads_the_text() {
    assert_eq!(parent_dir("/data/in"), Some("/data".to_string()));
    assert_eq!(parent_dir("/data/in///"), Some("/data".to_string()));
    assert_eq!(parent_dir("/data//in"), Some("/data".to_string()));
    assert_eq!(parent_dir("/data"), Some("/".to_string()));
    assert_eq!(parent_dir("data"), Some("".to_string()));
    assert_eq!(parent_dir("data/in"), Some("data".to_string()));
    assert_eq!(parent_dir("/"), None);
    assert_eq!(parent_dir("///"), None);
    assert_eq!(parent_dir(""), None);
}

#[test]
fn parent_dir_leaves_dot_components_aside() {
    assert_eq!(parent_dir("/d/src/."), Some("/d".to_string()));
    assert_eq!(parent_dir("/d/src/./"), Some("/d".to_string()));
    assert_eq!(parent_dir("/d/src/././/"), Some("/d".to_string()));
    assert_eq!(parent_dir("/d/./src"), Some("/d".to_string()));
    assert_eq!(parent_dir("/d/.//./src"), Some("/d".to_string()));
    assert_eq!(parent_dir("./src"), Some("".to_string()));
    assert_eq!(parent_dir("/./src"), Some("/".to_string()));
    assert_eq!(parent_dir("../src"), Some("..".to_string()));
    assert_eq!(parent_dir("a/../src"), Some("a/..".to_string()));
}

#[test]
fn parent_dir_is_not_told_by_dots() {
    assert_eq!(parent_dir("."), None);
    assert_eq!(parent_dir("./"), None);
    assert_eq!(parent_dir("./."), None);
    assert_eq!(parent_dir("/."), None);
    assert_eq!(parent_dir(".."), None);
    assert_eq!(parent_dir("../"), None);
    assert_eq!(parent_dir("/d/src/.."), None);
    assert_eq!(parent_dir("/d/src/../."), None);
    assert_eq!(parent_dir("/.."), None);
}

#[test]
fn names_that_only_look_dotted_are_names() {
    assert_eq!(parent_dir("/d/.hidden"), Some("/d".to_string()));
    assert_eq!(parent_dir("/d/src."), Some("/d".to_string()));
    assert_eq!(parent_dir("/d/..."), Some("/d".to_string()));
    assert_eq!(parent_dir("/d/..b"), Some("/d".to_string()));
    assert_eq!(parent_dir("/d/a.."), Some("/d".to_string()));
    assert_eq!(parent_dir(".hidden"), Some("".to_string()));
}

#[test]
fn dotted_paths_are_told_from_the_rest() {
    assert!(is_dotted("."));
    assert!(is_dotted("./"));
    assert!(is_dotted("./."));
    assert!(is_dotted(".."));
    assert!(is_dotted("/d/src/.."));
    assert!(is_dotted("/d/src/../."));
    assert!(is_dotted("/.."));
    assert!(!is_dotted("/."));
    assert!(!is_dotted("/"));
    assert!(!is_dotted(""));
    assert!(!is_dotted("/d/src/."));
    assert!(!is_dotted("/d/src"));
    assert!(!is_dotted("src"));
    assert!(!is_dotted("/d/..b"));
    assert!(!is_dotted("/d/..."));
}
