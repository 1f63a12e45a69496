//! What the screens show, and what can be done on them.

use disk_ui::disk_info::DiskInfo;
use disk_ui::export::RowTimes;
use disk_ui::model::{CategoryStat, Color, Node};
use disk_ui::palette::{file_color, folder_color};
use disk_ui::ui::analysis::{extension_row, extensions_whole, group_row, ExtensionStat, PathGroup};
use disk_ui::ui::cells::{
    child_cells, child_shares, disk_cells, disk_lines, disk_shares, explorer_call, hidden_mark, row_click, row_node, ExplorerCall};
use disk_ui::ui::compact_tree;
use disk_ui::ui::compact_tree::{SortDir as Dir, SortKey as Key};
use disk_ui::ui::shares::{fullness_text, share_text, short_share_text};
use disk_ui::ui::sidebar::{overview, shown_categories, Overview};
use disk_ui::ui::startup::{build_scan_paths, drive_text, PickerState};
use disk_ui::ui::topbar::{TopbarAction, TopbarState};
use disk_ui::ui::tree_list::{build_full_path, depth_color, visible_rows, RowKind};
use disk_ui::ui::treemap_view::{auto_select, draws_inside, tile_click, tooltip, view_root};
use disk_ui::ui::{SortDir, SortKey, SortState, TreeAction};

const GREY: Color = Color { r: 1, g: 2, b: 3 };
const NO_TIMES: RowTimes = RowTimes { modified: None, created: None, accessed: None };

fn file(name: &str, size: u64) -> Node {
    Node::new_file(name.to_string(), size, GREY)
}

fn folder(name: &str, children: Vec<Node>) -> Node {
    Node::new_folder(name.to_string(), GREY, children)
}

fn open(name: &str, children: Vec<Node>) -> Node {
    let mut n = folder(name, children);
    n.expanded = true;
    n
}

#[test]
fn headings_turn_the_order_round() {
    let mut s = SortState::default();
    assert!(s.key == SortKey::Size && s.dir == SortDir::Desc);
    s.click(SortKey::Size);
    assert!(s.dir == SortDir::Asc);
    s.click(SortKey::Size);
    assert!(s.dir == SortDir::Desc);
    s.click(SortKey::Name);
    assert!(s.key == SortKey::Name && s.dir == SortDir::Desc);
    assert!(s.dir.toggled() == SortDir::Asc);
}

#[test]
fn the_list_shows_what_is_open() {
    let mut reserved = file("$MFT", 1);
    reserved.is_reserved = true;
    let parts = vec![
        open("C:", vec![open("a", vec![file("x", 5)]), folder("b", vec![file("y", 3)]), reserved]),
        folder("D:", vec![file("z", 1)]),
    ];
    let shown = |all| {
        visible_rows(&parts, all)
            .iter()
            .map(|r| {
                let n = row_node(&parts, r).unwrap();
                match r {
                    RowKind::Disk { pi } => format!("{pi}:{}", n.name),
                    RowKind::Child { abs_path, depth, parent_logical, .. } => {
                        format!("{abs_path:?}{depth}/{parent_logical}:{}", n.name)
                    }
                }
            })
            .collect::<Vec<String>>()
            .join(" ")
    };
    assert_eq!(
        shown(true),
        "0:C: [0, 0]0/9:a [0, 0, 0]1/5:x [0, 1]0/9:b [0, 2]0/9:$MFT 1:D:"
    );
    assert_eq!(shown(false), "0:C: [0, 0]0/9:a [0, 0, 0]1/5:x [0, 1]0/9:b 1:D:");
    assert!(row_node(&parts, &RowKind::Disk { pi: 2 }).is_none());
}

#[test]
fn clicks_open_folders_and_select_files() {
    let parts = vec![open("C:", vec![folder("a", vec![file("x", 5)]), file("b", 1)])];
    let rows = visible_rows(&parts, true);
    let acts: Vec<TreeAction> = rows.iter().map(|r| row_click(r, row_node(&parts, r).unwrap())).collect();
    assert!(matches!(&acts[0], TreeAction::ToggleExpand(p) if p == &[0]));
    assert!(matches!(&acts[1], TreeAction::ToggleExpand(p) if p == &[0, 0]));
    assert!(matches!(&acts[2], TreeAction::Select(p) if p == &[0, 1]));
}

#[test]
fn rows_say_what_is_known() {
    let f = Node::new_file_with_meta("n.txt".into(), 1536, 4096, GREY, 9, 0, 9, 0x21, 0x8000_0017, true, "PC\\me".into());
    let at = Some((2024i64, 12u32, 31u32, 23u64, 59u64));
    let c = child_cells(&f, RowTimes { modified: at, created: at, accessed: None });
    assert_eq!(c.name, "📄 n.txt");
    assert_eq!((c.logical.as_str(), c.physical.as_str()), ("1.50 KB", "4.00 KB"));
    assert_eq!(c.modified, "2024-12-31 23:59");
    assert_eq!(c.created, "—");
    assert_eq!(c.accessed, "—");
    assert_eq!((c.items.as_str(), c.files.as_str(), c.folders.as_str()), ("—", "—", "—"));
    assert_eq!((c.attributes.as_str(), c.reparse.as_str(), c.reserved.as_str()), ("RA", "0x80000017", "是"));
    assert_eq!(c.owner, "PC\\me");
    let d = child_cells(&folder("d", vec![f, folder("e", vec![])]), NO_TIMES);
    assert_eq!((d.name.as_str(), d.mark.as_str()), ("📁 d", ""));
    let mut hidden = file("h", 1);
    hidden.attributes = 0x22;
    assert_eq!(child_cells(&hidden, NO_TIMES).mark, "(隐藏)");
    assert_eq!(hidden_mark(&hidden), "(隐藏)");
    assert_eq!((d.items.as_str(), d.files.as_str(), d.folders.as_str()), ("2", "1", "1"));
    assert_eq!((d.reparse.as_str(), d.reserved.as_str(), d.owner.as_str()), ("—", "—", "—"));
}

#[test]
fn disks_say_more() {
    let root = folder("System (C:)", vec![file("a", 2048)]);
    let info = DiskInfo {
        file_system: "NTFS".to_string(), total_bytes: 4096, used_bytes: 3072, free_bytes: 1024, ..DiskInfo::default()
    };
    let c = disk_cells(&root, Some(&info), NO_TIMES);
    assert_eq!((c.name.as_str(), c.modified.as_str()), ("💾 System (C:)", "NTFS"));
    assert_eq!((c.items.as_str(), c.files.as_str(), c.folders.as_str()), ("1", "1", "0"));
    assert_eq!(disk_cells(&root, None, NO_TIMES).modified, "");
    let (first, second) = disk_lines(&root, &info);
    assert_eq!(first, "总: 4.00K  已用: 3.00K  可用: 1.00K");
    assert_eq!(second, "扫描: 逻辑=2.00K  物理=2.00K");
}

#[test]
fn paths_are_put_together_from_the_names() {
    let parts = vec![folder("C:", vec![folder("a", vec![file("x", 5).with_full_path("D:\\true\\x".into()), file("y", 1)])])];
    let roots = vec!["C:\\".to_string()];
    assert_eq!(build_full_path(&parts, &roots, &[0, 0, 1]), "C:\\a\\y");
    assert_eq!(build_full_path(&parts, &roots, &[0, 0, 0]), "D:\\true\\x");
    assert_eq!(build_full_path(&parts, &roots, &[0, 0, 9]), "C:\\a");
    assert_eq!(build_full_path(&parts, &roots, &[0]), "C:");
    assert_eq!(build_full_path(&parts, &roots, &[]), "");
    assert_eq!(build_full_path(&parts, &vec![], &[0, 0]), "a");
    assert_eq!(build_full_path(&parts, &roots, &[3]), "");
}

#[test]
fn colors_take_turns() {
    assert_eq!(depth_color(0, true), folder_color(6));
    assert_eq!(depth_color(7, true), Color { r: 0x34, g: 0xC7, b: 0x59 });
    assert_eq!(depth_color(3, false), file_color());
}

#[test]
fn the_file_manager_gets_quoted_paths() {
    assert!(explorer_call("", true).is_none());
    assert!(matches!(explorer_call("C:\\a b", true), Some(ExplorerCall::Raw(s)) if s == "/select,\"C:\\a b\""));
    assert!(matches!(explorer_call("C:\\a b", false), Some(ExplorerCall::Plain(s)) if s == "C:\\a b"));
}

fn groups() -> Node {
    let mut f = file("q", 7);
    f.modified_ft = 3;
    folder("top", vec![
        open("Beta", vec![f.with_full_path("C:\\z\\q".into()), file("R", 2).with_full_path("C:\\A\\R".into())]),
        folder("alpha", vec![file("s", 8)]),
    ])
}

#[test]
fn groups_are_shown_in_the_chosen_order() {
    let top = groups();
    let rows = |key, dir| {
        let mut v = Vec::new();
        compact_tree::collect_rows(&top, &vec![0], compact_tree::SortState { key, dir }, &mut v);
        v.iter()
            .map(|r| {
                assert_eq!(r.is_group, r.depth == 0);
                top.navigate(&r.abs_path[1..]).unwrap().name.clone()
            })
            .collect::<Vec<String>>()
            .join(" ")
    };
    assert_eq!(rows(Key::Size, Dir::Desc), "Beta q R alpha");
    assert_eq!(rows(Key::Size, Dir::Asc), "alpha Beta R q");
    assert_eq!(rows(Key::Name, Dir::Asc), "alpha Beta q R");
    assert_eq!(rows(Key::Name, Dir::Desc), "Beta R q alpha");
    assert_eq!(rows(Key::Modified, Dir::Desc), "Beta q R alpha");
    assert_eq!(rows(Key::Path, Dir::Asc), "Beta R q alpha");
    assert_eq!(compact_tree::sorted_child_order(&top.children, compact_tree::SortState { key: Key::Name, dir: Dir::Asc }), [1, 0]);
}

#[test]
fn rows_are_kept_until_something_changes() {
    let mut top = groups();
    let mut v = compact_tree::ViewState::default();
    v.refresh(&top);
    assert_eq!(v.cache.as_ref().unwrap().2.len(), 4);
    top.children[0].expanded = false;
    v.touch();
    assert_eq!(v.expand_version, 1);
    v.refresh(&top);
    assert_eq!(v.cache.as_ref().unwrap().2.len(), 2);
    v.sort.click(compact_tree::SortKey::Size);
    assert!(v.sort.dir == compact_tree::SortDir::Asc);
    v.refresh(&top);
    assert_eq!(v.cache.as_ref().unwrap().2[0].abs_path, [0, 1]);
    v.expand_version = u64::MAX;
    v.touch();
    assert!(v.cache.is_none());
}

#[test]
fn lists_of_groups_answer_clicks() {
    let top = groups();
    let mut v = compact_tree::ViewState::default();
    v.refresh(&top);
    let rows = &v.cache.as_ref().unwrap().2;
    assert!(matches!(compact_tree::outcome(rows, Some(0), None), TreeAction::ToggleExpand(p) if p == [0, 0]));
    assert!(matches!(compact_tree::outcome(rows, Some(1), None), TreeAction::Select(p) if p == [0, 0, 0]));
    assert!(matches!(compact_tree::outcome(rows, None, None), TreeAction::Nothing));
    let delete = TreeAction::RequestDelete {
        abs_path: vec![0, 0, 0], name: "q".into(), full_path: "C:\\z\\q".into(), is_folder: false,
    };
    assert!(matches!(compact_tree::outcome(rows, Some(1), Some(delete)), TreeAction::RequestDelete { .. }));
}

#[test]
fn headings_of_groups_have_arrows() {
    let s = compact_tree::SortState::default();
    assert_eq!(compact_tree::heading("大小", compact_tree::SortKey::Size, s), "大小 ▼");
    assert_eq!(compact_tree::heading("名称", compact_tree::SortKey::Name, s), "名称");
    let up = compact_tree::SortState { dir: compact_tree::SortDir::Asc, ..s };
    assert_eq!(compact_tree::heading("大小", compact_tree::SortKey::Size, up), "大小 ▲");
    assert_eq!(compact_tree::folder_text("C:\\a\\b.txt"), "C:\\a");
    assert_eq!(compact_tree::folder_text("b.txt"), "");
    assert_eq!(compact_tree::folder_text("C:\\"), "C:");
}

#[test]
fn the_picker_makes_paths() {
    let mut p = PickerState::new(vec![('C', Some("System".to_string())), ('D', None)]);
    assert!(!p.has_selection());
    p.choose_drive('D', true);
    p.choose_drive('C', true);
    p.choose_drive('C', true);
    p.add_path("E:\\x".to_string());
    p.add_path("E:\\x".to_string());
    p.add_path("E:\\y".to_string());
    p.remove_path(0);
    assert!(p.has_selection());
    assert_eq!(build_scan_paths(&p), ["C:\\", "D:\\", "E:\\y"]);
    p.choose_drive('C', false);
    assert_eq!(build_scan_paths(&p), ["D:\\", "E:\\y"]);
    assert_eq!(drive_text('C', &Some("System".to_string())), "System (C:)");
    assert_eq!(drive_text('D', &None), "本地磁盘 (D:)");
}

#[test]
fn the_menu_bar_says_how_far_a_scan_is() {
    let mut s = TopbarState {
        scanning: true, scanned_count: 42, scan_error: Some("old"), has_result: false, show_all_details: true, is_admin: false,
    };
    assert_eq!(s.status_text().unwrap(), "正在扫描… 已发现 42 项");
    s.scanning = false;
    assert_eq!(s.status_text().unwrap(), "old");
    s.scan_error = None;
    assert!(s.status_text().is_none());
    assert!(!s.offers(TopbarAction::ExportCsv) && s.offers(TopbarAction::RestartAsAdmin) && s.offers(TopbarAction::AddScan));
}

#[test]
fn the_side_bar_tells_what_is_in_focus() {
    let n = folder("C:", vec![file("a", 2048)]);
    let info = DiskInfo { total_bytes: 4096, used_bytes: 3072, ..DiskInfo::default() };
    match overview(Some(&n), Some(&info)) {
        Overview::Ring { used, whole, name, line } => {
            assert_eq!((used, whole, name.as_str()), (3072, 4096, "C:"));
            assert_eq!(line, "已用 3.00 KB / 共 4.00 KB");
        }
        _ => panic!("there is no ring"),
    }
    for info in [None, Some(DiskInfo::default())] {
        match overview(Some(&n), info.as_ref()) {
            Overview::Scanned { name, line } => assert_eq!((name.as_str(), line.as_str()), ("C:", "已扫描 2.00 KB")),
            _ => panic!("there is no capacity to tell"),
        }
    }
    assert!(matches!(overview(None, Some(&info)), Overview::Waiting { line } if line == "扫描完成后显示"));
    let cat = |label, size| CategoryStat { label, size, color: GREY };
    let (shown, whole) = shown_categories(&vec![cat("a", 5), cat("b", 0), cat("c", 7)]);
    assert_eq!(shown.iter().map(|c| c.label).collect::<Vec<_>>(), ["a", "c"]);
    assert_eq!(whole, 12);
    assert_eq!(shown_categories(&vec![cat("a", 0)]).1, 1);
}

#[test]
fn tiles_are_entered_opened_or_selected() {
    let n = open("d", vec![file("x", 5)]);
    let f = file("f", 1024);
    let at = vec![1usize, 2];
    assert!(matches!(tile_click(&n, &at, true, true), TreeAction::EnterNode(p) if p == at));
    assert!(matches!(tile_click(&f, &at, true, true), TreeAction::Nothing));
    assert!(matches!(tile_click(&n, &at, false, true), TreeAction::ToggleExpand(p) if p == at));
    assert!(matches!(tile_click(&n, &at, false, false), TreeAction::Select(p) if p == at));
    assert!(matches!(tile_click(&f, &at, false, true), TreeAction::Select(p) if p == at));
    assert!(draws_inside(&n, 0, true) && !draws_inside(&n, 0, false) && !draws_inside(&f, 0, true));
    assert!(draws_inside(&n, 4, true) && !draws_inside(&n, 5, true));
    assert_eq!(tooltip(&f, false), ("f · 1.00 KB".to_string(), "文件 · 单击选中".to_string()));
    assert_eq!(tooltip(&n, false).1, "文件夹 · 块太小，请双击进入");
    assert_eq!(tooltip(&n, true).1, "文件夹 · 单击展开/收起 · 双击进入");
}

#[test]
fn the_view_falls_back_to_the_root() {
    let root = folder("r", vec![folder("d", vec![file("x", 5)])]);
    let (n, p) = view_root(&root, &vec![0]);
    assert_eq!((n.name.as_str(), p), ("d", vec![0]));
    let (n, p) = view_root(&root, &vec![3, 1]);
    assert_eq!((n.name.as_str(), p), ("r", vec![]));
    let here = vec![0usize];
    assert!(matches!(auto_select(Some(&here), &here, &vec![false, true, true]), TreeAction::Select(p) if p == [0, 1]));
    assert!(matches!(auto_select(Some(&here), &here, &vec![false]), TreeAction::Nothing));
    assert!(matches!(auto_select(Some(&vec![1]), &here, &vec![true]), TreeAction::Nothing));
    assert!(matches!(auto_select(None, &here, &vec![true]), TreeAction::Nothing));
}

#[test]
fn plain_tables_say_what_is_in_them() {
    let stat = |ext: &str, size, count| ExtensionStat { ext: ext.to_string(), size, count };
    let r = extension_row(&stat("txt", 2048, 3));
    assert_eq!((r.name.as_str(), r.size.as_str(), r.count.as_str()), (".txt", "2.00 KB", "3"));
    assert_eq!(extension_row(&stat("（无扩展名）", 0, 0)).name, "（无扩展名）");
    assert_eq!(extensions_whole(&vec![stat("a", 5, 1), stat("b", 7, 1)]), 12);
    assert_eq!(extensions_whole(&vec![]), 1);
    let g = |paths: &[&str]| PathGroup { size: 1024, paths: paths.iter().map(|s| s.to_string()).collect() };
    let r = group_row(&g(&["C:\\a", "C:\\b", "C:\\c"]));
    assert_eq!((r.size.as_str(), r.count.as_str(), r.wasted.as_str()), ("1.00 KB", "3", "2.00 KB"));
    assert_eq!(r.preview, "C:\\a  (+2 个，悬停查看全部)");
    let r = group_row(&g(&["C:\\a"]));
    assert_eq!((r.wasted.as_str(), r.preview.as_str()), ("0.00 B", "C:\\a"));
}

#[test]
fn shares_agree_with_single_precision() {
    let mut n: u64 = 88_172_645_463_325_252;
    let mut next = || {
        n ^= n << 13;
        n ^= n >> 7;
        n ^= n << 17;
        n
    };
    let mut pairs = vec![(1u64, 3u64), (2, 3), (1, 800), (u64::MAX, u64::MAX), (u64::MAX, 1), (0, 5), (16_777_217, 16_777_216)];
    for shift in 0..40 {
        let (a, b) = (next() >> shift, next() >> (shift / 2));
        pairs.push((a.min(b), a.max(b).max(1)));
        pairs.push((a, b.max(1)));
    }
    for (part, whole) in pairs {
        let share = part as f32 / whole as f32;
        assert_eq!(share_text(part, whole), format!("{:.2}%", share * 100.0), "{part} of {whole}");
        assert_eq!(short_share_text(part, whole), format!("{:.1}%", share * 100.0), "{part} of {whole}");
        assert_eq!(fullness_text(part, whole), format!("{:.0}%", share.clamp(0.0, 1.0) * 100.0), "{part} of {whole}");
    }
    assert_eq!(share_text(5, 0), "0.00%");
}

#[test]
fn rows_show_their_shares() {
    let disk = folder("C:", vec![file("a", 3), file("b", 1)]);
    assert_eq!(child_shares(&disk.children[0], 4, &disk), ("75.00%".to_string(), "75.00%".to_string()));
    let info = DiskInfo { total_bytes: 16, ..DiskInfo::default() };
    assert_eq!(disk_shares(&disk, Some(&info)), ("100.00%".to_string(), "25.00%".to_string(), 16));
    assert_eq!(disk_shares(&disk, None), ("100.00%".to_string(), "100.00%".to_string(), 4));
    assert_eq!(disk_shares(&folder("D:", vec![]), None).2, 1);
}
