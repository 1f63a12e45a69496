//! Trees of files and folders, and changes to them.

use disk_ui::model::{totals_fit, Color, Node, NodeKind, SortKey, SortState};

const GREY: Color = Color { r: 1, g: 2, b: 3 };

fn file(name: &str, size: u64) -> Node {
    Node::new_file(name.to_string(), size, GREY)
}

fn folder(name: &str, children: Vec<Node>) -> Node {
    Node::new_folder(name.to_string(), GREY, children)
}

fn names(n: &Node) -> Vec<&str> {
    n.children.iter().map(|c| c.name.as_str()).collect()
}

fn dated(name: &str, size: u64, room: u64, times: (u64, u64, u64), attrs: u32, owner: &str) -> Node {
    Node::new_file_with_meta(
        name.to_string(), size, room, GREY, times.0, times.1, times.2, attrs, 0, false, owner.to_string(),
    )
}

#[test]
fn a_folder_sums_up_what_is_in_it() {
    let inner = folder("inner", vec![file("a", 5), file("b", 7)]);
    let top = folder("top", vec![file("c", 3), inner, dated("d", 12, 4096, (9, 0, 0), 0x22, "")]);
    assert_eq!((top.size, top.logical_size, top.physical_size), (27, 27, 12 + 3 + 4096));
    assert_eq!((top.file_count, top.folder_count), (4, 1));
    assert_eq!(top.modified_ft, 9);
    assert_eq!(top.attributes, 0x10);
    assert_eq!(top.kind, NodeKind::Folder);
    // The largest first; of the two with 12 bytes the folder.
    assert_eq!(names(&top), ["inner", "d", "c"]);
}

#[test]
fn unmarked_nodes_get_plain_attributes() {
    let f = Node::new_file_with_meta("f".into(), 1, 2, GREY, 3, 4, 5, 0, 6, true, "me".into());
    assert_eq!(f.attributes, 0x80);
    assert_eq!((f.modified_ft, f.created_ft, f.accessed_ft), (3, 4, 5));
    assert_eq!((f.reparse_tag, f.is_reserved, f.owner.as_str()), (6, true, "me"));
    let d = Node::new_folder_with_meta("d".into(), GREY, vec![f], 7, 8, 9, 0, 0, false, String::new());
    assert_eq!((d.attributes, d.modified_ft), (0x10, 7));
    assert!(d.is_folder() && !d.is_file());
    assert!(d.children[0].is_file() && !d.children[0].is_folder());
}

#[test]
fn hidden_and_system_marks_are_seen() {
    for (attrs, marked) in [(0x20, false), (0x22, true), (0x24, true), (0x06, true), (0x80, false)] {
        assert_eq!(dated("x", 0, 0, (0, 0, 0), attrs, "").is_hidden_or_system(), marked);
    }
}

#[test]
fn sums_that_do_not_fit_are_noticed() {
    assert!(totals_fit(&vec![file("a", u64::MAX), file("b", 0)]));
    assert!(!totals_fit(&vec![file("a", u64::MAX), file("b", 1)]));
}

#[test]
fn paths_lead_to_nodes() {
    let mut t = folder("t", vec![folder("x", vec![file("y", 2), file("z", 1)]), file("w", 1)]);
    assert_eq!(t.navigate(&[]).unwrap().name, "t");
    assert_eq!(t.navigate(&[0, 1]).unwrap().name, "z");
    assert!(t.navigate(&[1, 0]).is_none());
    t.navigate_mut(&[0, 0]).unwrap().name = "changed".to_string();
    assert_eq!(names(&t.children[0]), ["changed", "z"]);
    assert!(t.navigate_mut(&[2]).is_none());
}

#[test]
fn a_copy_is_the_same_tree() {
    let t = folder("t", vec![folder("x", vec![file("y", 2)]), file("w", 1).with_full_path("C:\\w".into())]);
    let c = t.clone();
    assert_eq!(names(&c), names(&t));
    assert_eq!(c.children[1].full_path_override.as_deref(), Some("C:\\w"));
    assert_eq!(c.children[0].children[0].name, "y");
}

/// `t` holds `a` (with `aa` and `ab`) and `b` (with `ba`), all folders.
fn nested() -> Node {
    folder(
        "t",
        vec![
            folder("a", vec![folder("aa", vec![file("f", 9)]), folder("ab", vec![file("g", 8)])]),
            folder("b", vec![folder("ba", vec![file("h", 1)])]),
        ],
    )
}

#[test]
fn opening_closes_the_siblings() {
    let mut t = nested();
    assert!(t.exclusive_toggle(&[0]));
    assert!(t.exclusive_toggle(&[0, 1]));
    assert!(t.children[0].expanded && t.children[0].children[1].expanded);
    assert!(t.exclusive_toggle(&[1]));
    assert!(t.children[1].expanded);
    assert!(!t.children[0].expanded);
    assert!(!t.children[0].children[1].expanded);
}

#[test]
fn toggling_twice_closes_again() {
    let mut t = nested();
    assert!(t.exclusive_toggle(&[0, 0]));
    assert!(!t.exclusive_toggle(&[0, 0]));
    assert!(!t.children[0].children[0].expanded);
    assert!(!t.exclusive_toggle(&[]));
    assert!(!t.exclusive_toggle(&[7]));
    assert!(!t.exclusive_toggle(&[7, 0]));
}

#[test]
fn collapsing_goes_as_deep_as_things_are_open() {
    let mut t = nested();
    t.expanded = true;
    t.exclusive_toggle(&[0]);
    t.exclusive_toggle(&[0, 0]);
    t.collapse_all();
    assert!(!t.expanded && !t.children[0].expanded && !t.children[0].children[0].expanded);
    // Below a closed folder nothing is looked at.
    let mut t = nested();
    t.children[0].children[0].expanded = true;
    t.collapse_all();
    assert!(t.children[0].children[0].expanded);
}

#[test]
fn sorting_keeps_folders_first() {
    let mut t = folder("t", vec![file("b.txt", 30), folder("Z", vec![file("n", 1), file("M", 2)]), file("A.txt", 20)]);
    t.sort_recursive(SortKey::Name, true);
    assert_eq!(names(&t), ["Z", "A.txt", "b.txt"]);
    assert_eq!(names(&t.children[0]), ["M", "n"]);
    // A second time it changes nothing.
    t.sort_recursive(SortKey::Name, true);
    assert_eq!(names(&t), ["Z", "A.txt", "b.txt"]);
    assert_eq!(names(&t.children[0]), ["M", "n"]);
    t.sort_recursive(SortKey::Name, false);
    assert_eq!(names(&t), ["Z", "b.txt", "A.txt"]);
    assert_eq!(names(&t.children[0]), ["n", "M"]);
    t.sort_recursive(SortKey::LogicalSize, true);
    assert_eq!(names(&t), ["Z", "A.txt", "b.txt"]);
    assert_eq!((t.logical_size, t.file_count, t.folder_count), (53, 4, 1));
}

#[test]
fn every_key_sorts_by_its_own_column() {
    let make = || {
        folder(
            "t",
            vec![
                dated("ß", 1, 9, (5, 2, 7), 0x22, "zoe").with_full_path("C:\\Q".into()),
                dated("ÄB", 2, 8, (4, 3, 9), 0x21, "Adam").with_full_path("C:\\p".into()),
                dated("äa", 3, 7, (6, 1, 8), 0x23, "mia").with_full_path("C:\\R".into()),
            ],
        )
    };
    let order = |key, up| {
        let mut t = make();
        t.sort_recursive(key, up);
        names(&t).join(" ")
    };
    // Letters are compared in lower case, beyond ASCII too.
    assert_eq!(order(SortKey::Name, true), "ß äa ÄB");
    assert_eq!(order(SortKey::LogicalSize, true), "ß ÄB äa");
    assert_eq!(order(SortKey::PhysicalSize, true), "äa ÄB ß");
    assert_eq!(order(SortKey::Modified, true), "ÄB ß äa");
    assert_eq!(order(SortKey::Created, true), "äa ß ÄB");
    assert_eq!(order(SortKey::Accessed, true), "ß äa ÄB");
    assert_eq!(order(SortKey::Attributes, true), "ÄB ß äa");
    assert_eq!(order(SortKey::Owner, true), "ÄB äa ß");
    assert_eq!(order(SortKey::Path, true), "ÄB ß äa");
    assert_eq!(order(SortKey::Path, false), "äa ß ÄB");
}

#[test]
fn equal_nodes_stay_as_they_stand() {
    for up in [true, false] {
        let mut t = folder("t", vec![file("one", 5), file("two", 5), file("three", 5)]);
        t.sort_recursive(SortKey::Modified, up);
        assert_eq!(names(&t), ["one", "two", "three"]);
    }
}

#[test]
fn removal_is_taken_off_all_the_way_up() {
    let mut t = folder("t", vec![folder("x", vec![file("y", 20), file("z", 1)]), file("w", 1)]);
    assert!(t.remove_at_path(&[0, 0]));
    assert_eq!((t.size, t.logical_size, t.physical_size), (2, 2, 2));
    assert_eq!((t.file_count, t.folder_count), (2, 1));
    assert_eq!((t.children[0].logical_size, t.children[0].file_count), (1, 1));
    assert!(t.remove_at_path(&[0]));
    assert_eq!((t.logical_size, t.file_count, t.folder_count), (1, 1, 0));
    assert!(!t.remove_at_path(&[]));
    assert!(!t.remove_at_path(&[4]));
    assert_eq!(names(&t), ["w"]);
}

#[test]
fn nothing_is_sorted_at_first() {
    let s = SortState::default();
    assert!(s.key.is_none() && !s.ascending);
}
