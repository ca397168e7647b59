use std::path::Path;
use tla_cli::lint::files::{
    collect_tla_files, descends, insert_ordered, is_hidden, is_hidden_entry, is_tla_file,
    keeps_walking, selects, PathEntry,
};
use tla_cli::lint::paths::{path_precedes, split_names, NameKind};

fn entry(path: &str, file_name: Option<&str>, is_symlink: bool) -> PathEntry {
    PathEntry {
        path: path.to_string(),
        file_name: file_name.map(|n| n.to_string()),
        is_symlink,
    }
}

#[test]
fn tla_extension_in_any_case() {
    assert!(is_tla_file(Some("spec.tla")));
    assert!(is_tla_file(Some("spec.TLA")));
    assert!(is_tla_file(Some("spec.Tla")));
    assert!(is_tla_file(Some("spec.tLa")));
    assert!(is_tla_file(Some("a.b.tla")));
    assert!(is_tla_file(Some("\u{e9}.tla")));
    assert!(is_tla_file(Some("..tla")));
}

#[test]
fn other_names_are_no_tla_files() {
    assert!(!is_tla_file(None));
    assert!(!is_tla_file(Some("")));
    assert!(!is_tla_file(Some("tla")));
    assert!(!is_tla_file(Some(".tla")));
    assert!(!is_tla_file(Some("spec.txt")));
    assert!(!is_tla_file(Some("spec.tla.bak")));
    assert!(!is_tla_file(Some("spec.tlaplus")));
    assert!(!is_tla_file(Some("spectla")));
    assert!(!is_tla_file(Some("spec.tl")));
    assert!(!is_tla_file(Some("spec.la")));
    assert!(!is_tla_file(Some("spec.tla ")));
    assert!(!is_tla_file(Some("spec.")));
}

#[test]
fn hidden_names_begin_with_a_dot() {
    assert!(is_hidden(Some(".git")));
    assert!(is_hidden(Some(".hidden.tla")));
    assert!(is_hidden(Some(".")));
    assert!(!is_hidden(Some("spec.tla")));
    assert!(!is_hidden(Some("a.")));
    assert!(!is_hidden(Some("")));
    assert!(!is_hidden(None));
}

#[test]
fn hidden_entries_stop_a_walk() {
    assert!(is_hidden_entry(&entry("dir/.git", Some(".git"), false)));
    assert!(!is_hidden_entry(&entry("dir/src", Some("src"), false)));
    assert!(!keeps_walking(&entry("dir/.git", Some(".git"), false)));
    assert!(!keeps_walking(&entry("dir/link", Some("link"), true)));
    assert!(keeps_walking(&entry("dir/src", Some("src"), false)));
    assert!(keeps_walking(&entry("/", None, false)));
}

#[test]
fn selection_wants_a_plain_visible_tla_file() {
    assert!(selects(&entry("d/ok.tla", Some("ok.tla"), false)));
    assert!(!selects(&entry("d/ok.tla", Some("ok.tla"), true)));
    assert!(!selects(&entry("d/.ok.tla", Some(".ok.tla"), false)));
    assert!(!selects(&entry("d/ok.txt", Some("ok.txt"), false)));
    assert!(!selects(&entry("d/..", None, false)));
}

#[test]
fn directory_with_hidden_linked_and_foreign_files_yields_the_one_eligible() {
    let entries = vec![
        entry("specs", Some("specs"), false),
        entry("specs/.hidden.tla", Some(".hidden.tla"), false),
        entry("specs/link.tla", Some("link.tla"), true),
        entry("specs/notes.txt", Some("notes.txt"), false),
        entry("specs/ok.tla", Some("ok.tla"), false),
    ];
    assert_eq!(collect_tla_files(&entries), vec!["specs/ok.tla".to_string()]);
}

#[test]
fn selected_files_come_out_in_order() {
    let entries = vec![
        entry("z/b.tla", Some("b.tla"), false),
        entry("a/c.TLA", Some("c.TLA"), false),
        entry("a/b.tla", Some("b.tla"), false),
        entry("B.tla", Some("B.tla"), false),
        entry("a/readme.md", Some("readme.md"), false),
    ];
    assert_eq!(
        collect_tla_files(&entries),
        vec![
            "B.tla".to_string(),
            "a/b.tla".to_string(),
            "a/c.TLA".to_string(),
            "z/b.tla".to_string(),
        ]
    );
}

#[test]
fn a_path_met_twice_is_selected_once() {
    let entries = vec![
        entry("a.tla", Some("a.tla"), false),
        entry("b.tla", Some("b.tla"), false),
        entry("a.tla", Some("a.tla"), false),
    ];
    assert_eq!(collect_tla_files(&entries), vec!["a.tla".to_string(), "b.tla".to_string()]);
}

#[test]
fn a_directory_and_a_file_in_it_give_the_file_once() {
    // the directory `d` was walked, and `d/a.tla` was named beside it
    let entries = vec![
        entry("d", Some("d"), false),
        entry("d/a.tla", Some("a.tla"), false),
        entry("d/a.tla", Some("a.tla"), false),
    ];
    assert_eq!(collect_tla_files(&entries), vec!["d/a.tla".to_string()]);
}

#[test]
fn nothing_met_nothing_selected() {
    assert_eq!(collect_tla_files(&Vec::new()), Vec::<String>::new());
}

#[test]
fn paths_are_ordered_name_by_name() {
    assert!(path_precedes("", ""));
    assert!(path_precedes("", "a"));
    assert!(!path_precedes("a", ""));
    assert!(path_precedes("a", "a"));
    assert!(path_precedes("a", "b"));
    assert!(!path_precedes("b", "a"));
    assert!(path_precedes("a", "ab"));
    assert!(!path_precedes("ab", "a"));
    assert!(path_precedes("B", "a"));
    assert!(path_precedes("z", "\u{e9}"));
    // a directory comes before the directories whose names it begins
    assert!(path_precedes("d/a.tla", "d-x/a.tla"));
    assert!(!path_precedes("d-x/a.tla", "d/a.tla"));
    assert!(path_precedes("a/b", "a-b"));
    assert!(!path_precedes("a-b", "a/b"));
    assert!(path_precedes("a/x", "a.b/x"));
    assert!(path_precedes("a", "a/b"));
    assert!(!path_precedes("a/b", "a"));
    assert!(path_precedes("a/b/c", "a/c"));
}

#[test]
fn a_directory_comes_before_those_whose_names_it_begins() {
    let entries = vec![
        entry("d-x/a.tla", Some("a.tla"), false),
        entry("d/a.tla", Some("a.tla"), false),
        entry("d.y/a.tla", Some("a.tla"), false),
    ];
    assert_eq!(
        collect_tla_files(&entries),
        vec!["d/a.tla".to_string(), "d-x/a.tla".to_string(), "d.y/a.tla".to_string()]
    );
}

fn holds_to_the_order_of_paths(names: &[&str]) {
    for a in names {
        for b in names {
            if Path::new(a) == Path::new(b) {
                // two spellings of one path go by their bytes
                assert_eq!(path_precedes(a, b), a.as_bytes() <= b.as_bytes(), "{} and {}", a, b);
            } else {
                assert_eq!(path_precedes(a, b), Path::new(a) < Path::new(b), "{} and {}", a, b);
            }
        }
    }
}

#[test]
fn order_agrees_with_the_order_of_paths() {
    holds_to_the_order_of_paths(&[
        "a", "ab", "b", "B", "a/b", "a-b", "a.b/x", "a/x", "a/b/c", "a/c", "d/a.tla",
        "d-x/a.tla", "d x/a.tla", "\u{e9}", "\u{e9}/a", "\u{20ac}", "/a", "/a/b", "/a-b",
    ]);
}

#[test]
fn order_agrees_with_the_order_of_paths_on_dots_and_empty_names() {
    holds_to_the_order_of_paths(&[
        "", ".", "..", "/", "//", "./a", "../a", "#s/b", "a//b", "a/./b", "a/", "a", "a/b",
        "a//c.tla", "a/b.tla", "./a.tla", "#s/b.tla", "!x", "-x/a", ".a", "..a", "a/..",
        "a/../b", "./.", "./..", "/.", "/..", "/./a", "//a", ".//a", "a/.", "a/b/", "...",
        ".hidden/a", " /a", "+", "./+",
    ]);
}

#[test]
fn the_current_directory_comes_before_every_name() {
    let entries = vec![
        entry("#s/b.tla", Some("b.tla"), false),
        entry("./a.tla", Some("a.tla"), false),
    ];
    assert_eq!(
        collect_tla_files(&entries),
        vec!["./a.tla".to_string(), "#s/b.tla".to_string()]
    );
}

#[test]
fn empty_names_are_passed_over() {
    let entries = vec![
        entry("a//c.tla", Some("c.tla"), false),
        entry("a/b.tla", Some("b.tla"), false),
    ];
    assert_eq!(
        collect_tla_files(&entries),
        vec!["a/b.tla".to_string(), "a//c.tla".to_string()]
    );
}

#[test]
fn two_spellings_of_one_path_go_by_their_bytes() {
    let entries = vec![
        entry("a/b.tla", Some("b.tla"), false),
        entry("a//b.tla", Some("b.tla"), false),
        entry("a/./b.tla", Some("b.tla"), false),
    ];
    assert_eq!(
        collect_tla_files(&entries),
        vec!["a/./b.tla".to_string(), "a//b.tla".to_string(), "a/b.tla".to_string()]
    );
}

#[test]
fn names_of_a_path_are_read_as_the_file_system_reads_them() {
    let kinds = |path: &str| -> Vec<NameKind> {
        split_names(path.as_bytes()).iter().map(|s| s.kind).collect()
    };
    assert_eq!(kinds(""), vec![]);
    assert_eq!(kinds("/"), vec![NameKind::Root]);
    assert_eq!(kinds("."), vec![NameKind::CurDir]);
    assert_eq!(kinds(".."), vec![NameKind::ParentDir]);
    assert_eq!(kinds("./a"), vec![NameKind::CurDir, NameKind::Normal]);
    assert_eq!(kinds("a/./b"), vec![NameKind::Normal, NameKind::Normal]);
    assert_eq!(kinds("a//b/"), vec![NameKind::Normal, NameKind::Normal]);
    assert_eq!(kinds("/./a/.."), vec![NameKind::Root, NameKind::Normal, NameKind::ParentDir]);
    let spans = split_names("ab/cde".as_bytes());
    assert_eq!((spans[0].start, spans[0].end), (0, 2));
    assert_eq!((spans[1].start, spans[1].end), (3, 6));
    for path in ["", "/", ".", "./a/../b//c/.", "/x/y"] {
        assert_eq!(split_names(path.as_bytes()).len(), Path::new(path).components().count());
    }
}

#[test]
fn the_named_directory_is_walked_whatever_its_name() {
    assert!(descends(&entry(".", Some("."), false), 0));
    assert!(descends(&entry(".config", Some(".config"), false), 0));
    assert!(descends(&entry("link", Some("link"), true), 0));
    assert!(!descends(&entry("./.git", Some(".git"), false), 1));
    assert!(!descends(&entry("./link", Some("link"), true), 2));
    assert!(descends(&entry("./src", Some("src"), false), 1));
}

#[test]
fn insertion_keeps_the_order_and_adds_no_path_twice() {
    let mut files: Vec<String> = Vec::new();
    for path in ["m", "c", "x", "a", "m", "d", "a"] {
        insert_ordered(&mut files, path.to_string());
    }
    assert_eq!(files, vec!["a", "c", "d", "m", "x"]);
}
