//! Tables of comma-separated values, owners and walks through trees.

use disk_ui::export::{export_tree_csv, table_times, RowTimes};
use disk_ui::model::{Color, Node};
use disk_ui::owners::{get_owner, owner_queries, populate_owners, AccountNames};
use disk_ui::walk::{join_path, trim_backslashes, FileWalker, WalkRule, Walker};

const GREY: Color = Color { r: 1, g: 2, b: 3 };

fn file(name: &str, size: u64) -> Node {
    Node::new_file(name.to_string(), size, GREY)
}

fn folder(name: &str, children: Vec<Node>) -> Node {
    Node::new_folder(name.to_string(), GREY, children)
}

fn utf16(s: &str) -> Vec<u16> {
    s.encode_utf16().collect()
}

const HEADING: &str =
    "\u{FEFF}路径,名称,父占比(%),总占比(%),逻辑大小,修改时间,物理大小,创建时间,访问时间,项目,文件,文件夹,属性,重解析点,保留,所有者";

#[test]
fn a_tree_becomes_a_table() {
    let mut odd = Node::new_file_with_meta(
        "a \"b\",c".to_string(), 1, 8, GREY, 116_444_736_000_000_000, 0, 0, 0x06, 0xA000_000C, true, "me\nyou".to_string(),
    );
    odd.full_path_override = Some("elsewhere".to_string());
    let root = folder("C:\\", vec![folder("sub", vec![odd, file("b", 2)])]);
    let (text, files, folders) = export_tree_csv(&root, "C:\\", &Vec::new());
    let lines: Vec<&str> = text.split_inclusive('\n').collect();
    assert_eq!(lines[0], format!("{HEADING}\n"));
    assert_eq!(lines[1], "C:\\,C:\\,100.00,100.00,3,1970-01-01 00:00,10,,,3,2,1,—,,,\n");
    assert_eq!(lines[2], "C:\\sub,sub,100.00,100.00,3,1970-01-01 00:00,10,,,2,2,0,—,,,\n");
    assert_eq!(lines[3], "C:\\sub\\b,b,66.67,66.67,2,,2,,,0,0,0,—,,,\n");
    assert_eq!(
        lines[4..].concat(),
        "\"C:\\sub\\a \"\"b\"\",c\",\"a \"\"b\"\",c\",33.33,33.33,1,1970-01-01 00:00,8,,,0,0,0,HS,0xA000000C,是,\"me\nyou\"\n"
    );
    assert_eq!((files, folders), (2, 1));
}

#[test]
fn shares_agree_with_double_precision() {
    for (part, whole) in [(1u64, 3u64), (2, 3), (1, 7), (123_456_789, 987_654_321), (u64::MAX / 3, u64::MAX - 5), (1, 40_000)] {
        let root = folder("r", vec![file("p", part), file("q", whole - part)]);
        let (text, _, _) = export_tree_csv(&root, "r", &Vec::new());
        let expected = format!("{:.2}", part as f64 / whole as f64 * 100.0);
        let line = text.lines().find(|l| l.starts_with("r\\p,")).unwrap();
        assert_eq!(line.split(',').nth(2), Some(expected.as_str()));
        assert_eq!(line.split(',').nth(3), Some(expected.as_str()));
    }
}

#[test]
fn times_are_those_of_the_rows() {
    let mut f = file("f", 1);
    f.modified_ft = 5;
    f.created_ft = 6;
    let root = folder("r", vec![f]);
    let times = table_times(&root, "r");
    assert_eq!(times.len(), 2);
    assert_eq!((times[1].modified, times[1].created, times[1].accessed), (5, 6, 0));
    let local = (2024i64, 2u32, 29u32, 8u64, 5u64);
    let rows = vec![
        RowTimes { modified: None, created: None, accessed: None },
        RowTimes { modified: Some(local), created: None, accessed: Some(local) },
    ];
    let (text, _, _) = export_tree_csv(&root, "r", &rows);
    let fields: Vec<&str> = text.lines().last().unwrap().split(',').collect();
    assert_eq!(fields[5], "2024-02-29 08:05");
    // A time that is not known is not shown, whatever is said of it.
    assert_eq!(fields[8], "");
}

#[test]
fn an_empty_folder_has_shares_of_one_byte() {
    let root = folder("r", vec![file("zero", 0)]);
    let (text, _, _) = export_tree_csv(&root, "r", &Vec::new());
    assert!(text.lines().last().unwrap().starts_with("r\\zero,zero,0.00,0.00,0,"));
}

#[test]
fn paths_are_joined_with_one_backslash() {
    assert_eq!(join_path("C:\\", "x"), "C:\\x");
    assert_eq!(join_path("C:\\x", "y"), "C:\\x\\y");
    assert_eq!(join_path("", "y"), "\\y");
    assert_eq!(trim_backslashes("C:\\\\"), "C:");
    assert_eq!(trim_backslashes("\\"), "");
}

#[test]
fn a_walk_comes_by_what_its_rule_says() {
    let mut hidden = file("$MFT", 1);
    hidden.is_reserved = true;
    let mut open = folder("open", vec![file("in", 9)]);
    open.expanded = true;
    let root = folder("r", vec![hidden, open, folder("shut", vec![file("deep", 5)])]);
    let seen = |rule: WalkRule| {
        let mut w = Walker::new(rule, &root, "r");
        let mut all = Vec::new();
        while let Some(v) = w.next() {
            assert_eq!(root.navigate(&v.at).unwrap().name, v.node.name);
            all.push(format!("{}/{}/{}", v.path, v.depth, v.parent_logical));
        }
        all.join(" ")
    };
    assert_eq!(
        seen(WalkRule { open_only: false, with_reserved: true }),
        "r\\open/0/15 r\\open\\in/1/9 r\\shut/0/15 r\\shut\\deep/1/5 r\\$MFT/0/15"
    );
    assert_eq!(
        seen(WalkRule { open_only: true, with_reserved: false }),
        "r\\open/0/15 r\\open\\in/1/9 r\\shut/0/15"
    );
}

#[test]
fn files_come_last_first() {
    let root = folder("r", vec![file("a", 9), folder("d", vec![file("b", 5), file("c", 3)])]);
    let mut w = FileWalker::new(&root, "C:\\");
    let mut all = Vec::new();
    while let Some((n, path)) = w.next() {
        all.push((n.logical_size, path));
    }
    assert_eq!(
        all,
        [(3, "C:\\d\\c".to_string()), (5, "C:\\d\\b".to_string()), (9, "C:\\a".to_string())]
    );
}

#[test]
fn owners_have_a_domain_or_not() {
    let who = |name: &str, domain: &str| Some(AccountNames { name: utf16(name), domain: utf16(domain) });
    assert_eq!(get_owner(who("Alex", "PC")), "PC\\Alex");
    assert_eq!(get_owner(who("Everyone", "")), "Everyone");
    assert_eq!(get_owner(who("", "PC")), "");
    assert_eq!(get_owner(None), "");
    let broken = AccountNames { name: vec![0x41, 0xD800, 0x42], domain: Vec::new() };
    assert_eq!(get_owner(Some(broken)), "A\u{FFFD}B");
}

#[test]
fn owners_are_filled_in_as_far_as_things_are_open() {
    let mut open = folder("open", vec![file("in", 9)]);
    open.expanded = true;
    let mut root = folder("C:\\", vec![open, folder("shut", vec![file("deep", 5)])]);
    let queries = owner_queries(&root, "C:\\");
    let paths: Vec<&str> = queries.iter().map(|q| q.path.as_str()).collect();
    assert_eq!(paths, ["C:\\open", "C:\\open\\in", "C:\\shut"]);
    let answers: Vec<String> = paths.iter().map(|p| format!("owner of {p}")).collect();
    populate_owners(&mut root, &queries, &answers);
    assert_eq!(root.owner, "");
    assert_eq!(root.children[0].owner, "owner of C:\\open");
    assert_eq!(root.children[0].children[0].owner, "owner of C:\\open\\in");
    assert_eq!(root.children[1].owner, "owner of C:\\shut");
    assert_eq!(root.children[1].children[0].owner, "");
    assert_eq!(root.logical_size, 14);
}
