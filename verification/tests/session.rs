//! The application as a whole.

use disk_ui::dedup::HashPhase;
use disk_ui::disk_info::DiskInfo;
use disk_ui::duplicates::DuplicateMessage;
use disk_ui::model::{Color, Node};
use disk_ui::scan::ScanMessage;
use disk_ui::session::{DeleteSource, SearchOutcome, Session, TabOutcome};
use disk_ui::tabs::Tab;
use disk_ui::ui::TreeAction;

const GREY: Color = Color { r: 1, g: 2, b: 3 };

fn file(name: &str, size: u64) -> Node {
    Node::new_file(name.to_string(), size, GREY)
}

fn folder(name: &str, children: Vec<Node>) -> Node {
    Node::new_folder(name.to_string(), GREY, children)
}

fn disk(name: &str) -> Node {
    folder(name, vec![folder("d", vec![file("a.txt", 5), file("b.txt", 5)]), file("c.mp4", 3)])
}

/// A session in which `C:\` and `D:\` were scanned.
fn scanned() -> Session {
    let mut s = Session::new();
    assert_eq!(s.start_scan_batch(vec!["C:\\".to_string(), "D:\\".to_string()]).as_deref(), Some("C:\\"));
    assert!(s.scan_message(ScanMessage::Done(Box::new(disk("C:")), Some(DiskInfo::default()))));
    assert_eq!(s.scan_finished().as_deref(), Some("D:\\"));
    assert!(s.scan_message(ScanMessage::Done(Box::new(disk("D:")), None)));
    assert!(s.scan_finished().is_none());
    s
}

fn title(t: &Tab) -> String {
    t.caption()
}

#[test]
fn scans_take_turns() {
    let mut s = Session::new();
    assert!(s.start_scan_batch(Vec::new()).is_none());
    assert!(!s.scanning);
    assert_eq!(s.start_scan_batch(vec!["C:\\".to_string()]).as_deref(), Some("C:\\"));
    assert!(s.scanning);
    // What is added while a scan runs waits.
    assert!(s.start_scan_batch(vec!["D:\\".to_string()]).is_none());
    assert!(!s.scan_message(ScanMessage::Progress(5000)));
    assert_eq!(s.scanned_count, 5000);
    assert!(s.scan_message(ScanMessage::Error("扫描失败: x".to_string())));
    assert_eq!(s.scan_error.as_deref(), Some("扫描失败: x"));
    assert_eq!(s.scan_finished().as_deref(), Some("D:\\"));
    assert!(s.scanning && s.scan_error.is_none());
    assert_eq!(s.scanned_count, 0);
    assert!(s.partitions.is_empty());
}

#[test]
fn results_stand_side_by_side() {
    let s = scanned();
    assert_eq!(s.partitions.len(), 2);
    assert_eq!(s.partition_root_paths, ["C:\\", "D:\\"]);
    assert!(s.partition_infos[0].is_some() && s.partition_infos[1].is_none());
    assert_eq!(s.partition_categories[1][0].size, 3);
    assert_eq!(s.partition_categories[0][3].size, 10);
    assert_eq!(s.focused(), Some(0));
    assert!(!s.scanning);
}

#[test]
fn clicks_change_the_list_in_front() {
    let mut s = scanned();
    let before = s.expand_version;
    assert!(s.apply_tree_action(TreeAction::ToggleExpand(vec![1])).is_none());
    assert!(s.partitions[1].expanded && !s.partitions[0].expanded);
    assert_eq!(s.selected, Some(vec![1]));
    assert!(s.expand_version > before);
    assert!(s.apply_tree_action(TreeAction::ToggleExpand(vec![1, 0])).is_none());
    assert!(s.partitions[1].children[0].expanded);
    assert!(s.apply_tree_action(TreeAction::Select(vec![1, 1])).is_none());
    assert_eq!(s.selected, Some(vec![1, 1]));
    assert_eq!(s.focused(), Some(1));
    assert!(s.apply_tree_action(TreeAction::Nothing).is_none());
    let q = s.apply_tree_action(TreeAction::RequestCheckLock {
        abs_path: vec![0], name: "n".into(), full_path: "C:\\n".into(), is_folder: true,
    });
    assert_eq!(q.unwrap().full_path, "C:\\n");
}

#[test]
fn analyses_open_once() {
    let mut s = scanned();
    assert!(matches!(s.open_extension_tab(1), TabOutcome::Opened));
    assert_eq!(s.active_tab, 1);
    assert!(matches!(s.open_extension_tab(0), TabOutcome::Opened));
    assert_eq!(s.active_tab, 2);
    assert!(matches!(s.open_extension_tab(1), TabOutcome::Switched));
    assert_eq!((s.active_tab, s.tabs.len()), (1, 3));
    assert!(matches!(s.open_extension_tab(7), TabOutcome::NoPartition));
    assert_eq!(title(&s.tabs[0]), "📋 主列表");
    assert!(title(&s.tabs[1]).starts_with("🗐 "));
    s.close_tab(1);
    // The page behind the one that was closed comes to the front.
    assert_eq!((s.active_tab, s.tabs.len()), (1, 2));
    s.close_tab(1);
    assert_eq!((s.active_tab, s.tabs.len()), (0, 1));
    s.select_tab(0);
    assert_eq!(s.active_tab, 0);
}

#[test]
fn closing_another_page_keeps_the_one_in_front() {
    let mut s = scanned();
    s.open_extension_tab(0);
    s.open_extension_tab(1);
    let front = title(&s.tabs[s.active_tab]);
    s.close_tab(1);
    assert_eq!(title(&s.tabs[s.active_tab]), front);
}

#[test]
fn an_analysis_has_its_own_selection() {
    let mut s = scanned();
    s.open_extension_tab(0);
    s.apply_tree_action(TreeAction::ToggleExpand(vec![0, 1]));
    match &s.tabs[1] {
        Tab::Extensions(a) => {
            assert_eq!(a.selected, Some(vec![0, 1]));
            assert!(a.root.children[1].expanded);
        }
        _ => panic!("this is another page"),
    }
    assert!(s.selected.is_none());
}

#[test]
fn a_search_is_told_of_its_progress() {
    let mut s = scanned();
    match s.open_duplicate_tab(0) {
        SearchOutcome::Started(c) => assert_eq!(c.size_groups.len(), 1),
        _ => panic!("the search did not start"),
    }
    assert!(title(&s.tabs[1]).starts_with("🔍 "));
    assert!(matches!(s.open_duplicate_tab(0), SearchOutcome::Switched));
    assert!(matches!(s.open_duplicate_tab(9), SearchOutcome::NoPartition));
    s.duplicate_message(0, DuplicateMessage::Progress { phase: HashPhase::Confirm, done: 1, total: 2 });
    assert!(matches!(&s.tabs[1], Tab::Duplicates(_, Some((HashPhase::Confirm, 1, 2)))));
    s.duplicate_message(0, DuplicateMessage::Done(Box::new(folder("found", vec![]))));
    match &s.tabs[1] {
        Tab::Duplicates(a, None) => assert_eq!(a.root.name, "found"),
        _ => panic!("the search goes on"),
    }
    // A page that was closed is told nothing.
    s.close_tab(1);
    s.duplicate_message(0, DuplicateMessage::Done(Box::new(folder("late", vec![]))));
    assert_eq!(s.tabs.len(), 1);
}

fn ask(s: &mut Session, at: Vec<usize>) {
    s.apply_tree_action(TreeAction::RequestDelete {
        abs_path: at, name: "a.txt".into(), full_path: "C:\\d\\a.txt".into(), is_folder: false,
    });
}

#[test]
fn only_what_is_confirmed_is_deleted() {
    let mut s = scanned();
    assert!(s.execute_pending_delete().is_none());
    ask(&mut s, vec![0, 0, 0]);
    assert_eq!(s.pending_delete.as_ref().unwrap().source, DeleteSource::Main);
    s.cancel_delete();
    assert!(s.execute_pending_delete().is_none());
    ask(&mut s, vec![0, 0, 0]);
    assert_eq!(s.execute_pending_delete().as_deref(), Some("C:\\d\\a.txt"));
    // Nothing is gone before the system says so.
    assert_eq!(s.partitions[0].file_count, 3);
    s.delete_finished(Some(Ok(())));
    assert_eq!((s.partitions[0].file_count, s.partitions[0].logical_size), (2, 8));
    assert_eq!(s.scan_error.as_deref(), Some("已删除到回收站: a.txt"));
    assert!(s.deleting.is_none());
}

#[test]
fn a_failed_deletion_is_told() {
    let mut s = scanned();
    ask(&mut s, vec![0, 0, 0]);
    s.execute_pending_delete();
    s.delete_finished(Some(Err("in use".to_string())));
    assert_eq!(s.scan_error.as_deref(), Some("删除失败 (a.txt): in use"));
    assert_eq!(s.partitions[0].file_count, 3);
    ask(&mut s, vec![0, 0, 0]);
    s.execute_pending_delete();
    s.delete_finished(None);
    assert_eq!(s.scan_error.as_deref(), Some("删除失败 (a.txt): 删除线程异常退出"));
}

#[test]
fn deleting_in_an_analysis_changes_that_one() {
    let mut s = scanned();
    s.open_extension_tab(0);
    ask(&mut s, vec![0, 0, 0]);
    assert_eq!(s.pending_delete.as_ref().unwrap().source, DeleteSource::Tab(1));
    s.execute_pending_delete();
    s.delete_finished(Some(Ok(())));
    match &s.tabs[1] {
        Tab::Extensions(a) => assert_eq!(a.root.file_count, 2),
        _ => panic!("this is another page"),
    }
    assert_eq!(s.partitions[0].file_count, 3);
}

fn extensions_on(t: &Tab) -> &Node {
    match t {
        Tab::Extensions(a) => &a.root,
        _ => panic!("this is another page"),
    }
}

#[test]
fn closing_its_page_ends_what_a_deletion_changes() {
    let mut s = scanned();
    s.open_extension_tab(0);
    s.open_duplicate_tab(0);
    s.duplicate_message(0, DuplicateMessage::Done(Box::new(folder("found", vec![disk("g")]))));
    s.select_tab(1);
    ask(&mut s, vec![0, 0, 0]);
    assert!(s.execute_pending_delete().is_some());
    s.close_tab(1);
    assert_eq!(s.deleting.as_ref().unwrap().source, DeleteSource::Closed);
    s.delete_finished(Some(Ok(())));
    // The page that moved up into the place of the other is as it was.
    match &s.tabs[1] {
        Tab::Duplicates(a, None) => assert_eq!(a.root.file_count, 3),
        _ => panic!("this is another page"),
    }
    assert_eq!(s.partitions[0].file_count, 3);
    assert!(s.deleting.is_none() && s.scan_error.is_none());
}

#[test]
fn a_deletion_follows_its_page() {
    let mut s = scanned();
    s.open_extension_tab(0);
    s.open_extension_tab(1);
    ask(&mut s, vec![0, 0, 0]);
    assert_eq!(s.pending_delete.as_ref().unwrap().source, DeleteSource::Tab(2));
    // Before it is confirmed, and while it is under way.
    s.close_tab(1);
    assert_eq!(s.pending_delete.as_ref().unwrap().source, DeleteSource::Tab(1));
    assert!(s.execute_pending_delete().is_some());
    s.open_extension_tab(0);
    s.delete_finished(Some(Ok(())));
    assert_eq!(extensions_on(&s.tabs[1]).file_count, 2);
    assert_eq!(extensions_on(&s.tabs[2]).file_count, 3);
    // A page further on may be closed without any effect.
    s.select_tab(1);
    ask(&mut s, vec![0, 0, 0]);
    assert!(s.execute_pending_delete().is_some());
    s.close_tab(2);
    assert_eq!(s.deleting.as_ref().unwrap().source, DeleteSource::Tab(1));
    s.delete_finished(Some(Ok(())));
    assert_eq!(extensions_on(&s.tabs[1]).file_count, 1);
}

#[test]
fn one_thing_is_deleted_at_a_time() {
    let mut s = scanned();
    ask(&mut s, vec![0, 0, 0]);
    assert_eq!(s.execute_pending_delete().as_deref(), Some("C:\\d\\a.txt"));
    s.apply_tree_action(TreeAction::RequestDelete {
        abs_path: vec![1, 1], name: "c.mp4".into(), full_path: "D:\\c.mp4".into(), is_folder: false,
    });
    assert!(s.execute_pending_delete().is_none());
    assert_eq!(s.deleting.as_ref().unwrap().name, "a.txt");
    assert_eq!(s.pending_delete.as_ref().unwrap().name, "c.mp4");
    s.delete_finished(Some(Ok(())));
    assert_eq!((s.partitions[0].file_count, s.partitions[1].file_count), (2, 3));
    assert_eq!(s.execute_pending_delete().as_deref(), Some("D:\\c.mp4"));
    s.delete_finished(Some(Ok(())));
    assert_eq!(s.partitions[1].file_count, 2);
}

#[test]
fn details_can_be_hidden() {
    let mut s = Session::new();
    assert!(s.show_all_details);
    s.toggle_show_all();
    assert!(!s.show_all_details);
}
