//! Deleting, finding out who holds a file, spot checks, messages and logs.

use disk_ui::applog::{log, log_batch, starts_anew, MAX_LOG_BYTES};
use disk_ui::dedup::HashPhase;
use disk_ui::digest::hex_text;
use disk_ui::disk_info::DiskInfo;
use disk_ui::file_ops::{
    create_symlink_placeholder, delete_failure, delete_to_recycle_bin, delete_to_recycle_bin_with_retry,
    describe_locking_processes, find_locking_processes, open_properties, path_list, LockEvent, LockStep, LockingProcess,
    ProcessInfo, RetryStep, ShellReply, ERROR_MORE_DATA, ERROR_SUCCESS,
};
use disk_ui::fonts::{font_candidates, fonts_dir};
use disk_ui::messages::{export_file_name, export_message, safe_char, scan_summary, search_text};
use disk_ui::mft_verify::{format_report, pick_sample, spot_check};
use disk_ui::model::{Color, Node};

fn utf16(s: &str) -> Vec<u16> {
    s.encode_utf16().collect()
}

#[test]
fn a_path_list_ends_with_two_zeros() {
    assert_eq!(path_list("ab"), [97, 98, 0, 0]);
}

#[test]
fn deleting_says_what_went_wrong() {
    let reply = |code, aborted| ShellReply::Answered { code, aborted };
    assert_eq!(delete_to_recycle_bin("C:\\x", reply(0, false)), Ok(()));
    assert_eq!(delete_to_recycle_bin("C:\\x", reply(0x7C, false)), Err("删除失败（错误码 0x7C）".to_string()));
    assert_eq!(delete_to_recycle_bin("C:\\x", reply(0, true)), Err("操作被取消".to_string()));
    assert_eq!(delete_to_recycle_bin("", reply(0, false)), Err("路径为空".to_string()));
    assert_eq!(delete_to_recycle_bin("C:\\x", ShellReply::Unsupported), Err("仅支持 Windows".to_string()));
}

#[test]
fn properties_are_asked_for_by_path() {
    assert!(open_properties("").is_none());
    let q = open_properties("C:\\x").unwrap();
    assert_eq!(q.verb, utf16("properties\0"));
    assert_eq!(q.file, utf16("C:\\x\0"));
    assert_eq!(create_symlink_placeholder("a", "b"), Err("去重/迁移到其他盘功能尚未实现".to_string()));
}

fn failure(e: LockEvent) -> String {
    match find_locking_processes(e) {
        LockStep::Done(Err(s)) => s,
        _ => panic!("this is no failure"),
    }
}

fn holders(e: LockEvent) -> Vec<LockingProcess> {
    match find_locking_processes(e) {
        LockStep::Done(Ok(v)) => v,
        _ => panic!("this is no list"),
    }
}

#[test]
fn who_holds_a_file_is_found_step_by_step() {
    assert!(holders(LockEvent::Asked(0)).is_empty());
    assert!(matches!(find_locking_processes(LockEvent::Asked(1)), LockStep::StartSession));
    assert!(matches!(find_locking_processes(LockEvent::SessionStarted(0)), LockStep::Register));
    assert!(matches!(find_locking_processes(LockEvent::Registered(0)), LockStep::AskHowMany));
    let more = LockEvent::Counted { code: ERROR_MORE_DATA, needed: 2 };
    assert!(matches!(find_locking_processes(more), LockStep::AskWho(2)));
    assert!(holders(LockEvent::Counted { code: ERROR_SUCCESS, needed: 0 }).is_empty());
    let info = |pid, app: &str, service: &str| ProcessInfo {
        pid,
        app_name: utf16(app),
        service_name: utf16(service),
    };
    let infos = vec![info(7, "记事本\0\0", "\0\0"), info(8, "\0", "Spooler\0"), info(9, "never", "")];
    let found = holders(LockEvent::Listed { code: 0, got: 2, infos });
    assert_eq!(found.len(), 2);
    assert_eq!((found[0].pid, found[0].app_name.as_str(), found[0].service_name.is_none()), (7, "记事本", true));
    assert_eq!((found[1].app_name.as_str(), found[1].service_name.as_deref()), ("(PID 8)", Some("Spooler")));
    assert_eq!(describe_locking_processes(&found), "被 记事本（PID 7）、(PID 8)（服务 Spooler，PID 8）占用");
    assert_eq!(describe_locking_processes(&[]), "");
    let program = |pid, name: &str| LockingProcess { pid, app_name: name.to_string(), service_name: None };
    assert_eq!(
        describe_locking_processes(&[program(1234, "QQ.exe"), program(5678, "Everything.exe")]),
        "被 QQ.exe（PID 1234）、Everything.exe（PID 5678）占用"
    );
}

#[test]
fn every_step_can_fail() {
    assert_eq!(failure(LockEvent::SessionStarted(5)), "RmStartSession 失败（错误码 5）");
    assert_eq!(failure(LockEvent::Registered(6)), "RmRegisterResources 失败（错误码 6）");
    assert_eq!(failure(LockEvent::Counted { code: 7, needed: 3 }), "RmGetList（探测数量）失败（错误码 7）");
    let listed = LockEvent::Listed { code: 8, got: 0, infos: Vec::new() };
    assert_eq!(failure(listed), "RmGetList（取列表）失败（错误码 8）");
}

#[test]
fn deleting_is_tried_again_and_then_given_up() {
    let fail = || Err("in use".to_string());
    for (attempt, pause) in [(0, 300), (1, 600), (2, 900)] {
        assert!(matches!(delete_to_recycle_bin_with_retry(attempt, fail()), RetryStep::Wait(ms) if ms == pause));
    }
    assert!(matches!(delete_to_recycle_bin_with_retry(3, fail()), RetryStep::FindHolders(e) if e == "in use"));
    assert!(matches!(delete_to_recycle_bin_with_retry(2, Ok(())), RetryStep::Deleted));
    let who = LockingProcess { pid: 3, app_name: "vim".to_string(), service_name: None };
    assert_eq!(delete_failure("in use", &Ok(vec![who])), "in use；被 vim（PID 3）占用");
    assert_eq!(delete_failure("in use", &Ok(Vec::new())), "in use");
    assert_eq!(delete_failure("in use", &Err("no".to_string())), "in use");
}

#[test]
fn a_sample_has_no_file_twice() {
    let all = pick_sample(100, 1000);
    let mut sorted = all.clone();
    sorted.sort();
    assert_eq!(sorted, (0..100).collect::<Vec<usize>>());
    // That a hundred numbers come out in order by chance does not happen.
    assert_ne!(all, sorted);
    let some = pick_sample(100, 10);
    assert_eq!(some.len(), 10);
    assert!(pick_sample(0, 5).is_empty());
}

#[test]
fn a_spot_check_tells_differences() {
    let paths: Vec<String> = ["C:\\a", "C:\\b", "C:\\c"].iter().map(|s| s.to_string()).collect();
    let r = spot_check(&paths, &vec![1, 2, 3], 6_000_000_000, &vec![2, 0, 1], &vec![Some(3), Some(9), None], Some((10_000_000_000, 2_500_000_000)));
    assert_eq!((r.sample_count, r.unreadable), (3, 1));
    assert!(!r.all_matched());
    assert_eq!(r.mismatches, [("C:\\a".to_string(), 1, 9)]);
    assert_eq!((r.disk_total, r.disk_used), (Some(10_000_000_000), Some(7_500_000_000)));
    assert_eq!(
        format_report(&r),
        "抽测 3 个文件：1 个大小一致，1 个不一致，1 个当时无法用传统 API 读取（竞态/权限，视为噪声）。\n  \
         不一致: C:\\a | MFT=1 FS=9\n\
         系统报告总容量 10.00 GB，已用 7.50 GB；扫描汇总（文件逻辑大小之和）6.00 GB。\n\
         注：扫描汇总天然会略小于“已用空间”，因为不含簇内部碎片、NTFS 元数据、卷影副本等，这是预期差异。\n"
    );
    let fine = spot_check(&paths, &vec![1, 2, 3], 6, &vec![0], &vec![Some(1)], None);
    assert!(fine.all_matched());
    assert_eq!(
        format_report(&fine),
        "抽测 1 个文件：1 个大小一致，0 个不一致，0 个当时无法用传统 API 读取（竞态/权限，视为噪声）。\n"
    );
}

#[test]
fn a_report_lists_ten_differences() {
    let paths: Vec<String> = (0..12).map(|i| format!("f{i}")).collect();
    let r = spot_check(&paths, &vec![1; 12], 0, &(0..12).collect(), &vec![Some(2); 12], None);
    assert_eq!(r.mismatches.len(), 12);
    assert_eq!(format_report(&r).lines().count(), 11);
}

#[test]
fn exported_files_have_safe_names() {
    assert_eq!(export_file_name(0, "本地磁盘 (C:)"), "diskforge_export_1_本地磁盘__C__.csv");
    assert_eq!(export_file_name(9, "a/b"), "diskforge_export_10_a_b.csv");
    assert_eq!((safe_char('x', true), safe_char('x', false)), ('x', '_'));
    assert_eq!(export_message(0), "CSV 导出失败，详情见日志");
    assert_eq!(export_message(2), "已导出 2 个 CSV 文件到程序所在目录");
}

#[test]
fn a_scan_is_summed_up() {
    let grey = Color { r: 0, g: 0, b: 0 };
    let root = Node::new_folder("C:".to_string(), grey, vec![Node::new_file("a.mp4".to_string(), 2048, grey)]);
    let info = Some(DiskInfo { total_bytes: 4096, used_bytes: 3072, free_bytes: 1024, ..DiskInfo::default() });
    let lines = scan_summary(&root, &info).ok().unwrap();
    assert_eq!(lines.len(), 2);
    assert_eq!(
        lines[0],
        "[app] 扫描完成: C:\n  逻辑大小: 2.00 KB\n  物理大小: 2.00 KB\n  系统已用: 3.00 KB\n  剩余空间: 1.00 KB\n  文件: 1  文件夹: 0"
    );
    assert_eq!(lines[1], "  分类[视频]: 2.00 KB");
    assert!(scan_summary(&root, &None).ok().unwrap()[0].contains("系统已用: 未知"));
}

#[test]
fn a_search_tells_its_steps_apart() {
    let t = search_text("C:", HashPhase::Prefilter, 0, 0);
    assert_eq!(t.heading, "正在比对内容：C:");
    assert_eq!(t.step, "第 1 步 / 共 2 步：快速预筛");
    assert_eq!(t.count, "正在收集候选文件…");
    let t = search_text("C:", HashPhase::Confirm, 5, 9);
    assert_eq!(t.step, "第 2 步 / 共 2 步：逐字节确认");
    assert_eq!(t.count, "已处理 5 / 9 个文件");
}

#[test]
fn log_lines_bear_the_time() {
    assert_eq!(log("12:34:56.789", "hello"), "[12:34:56.789] hello");
    assert!(log_batch("12:00:00.000", &Vec::new()).is_none());
    let b = log_batch("12:00:00.000", &vec!["a".to_string(), "b".to_string()]).unwrap();
    assert_eq!(b.lines, ["[12:00:00.000] a", "[12:00:00.000] b"]);
    assert_eq!(b.notice, "[12:00:00.000] (批量写入 2 行到日志文件，控制台不逐行显示)");
    assert!(starts_anew(Some(MAX_LOG_BYTES + 1)));
    assert!(!starts_anew(Some(MAX_LOG_BYTES)));
    assert!(!starts_anew(None));
}

#[test]
fn fonts_are_looked_for_in_order() {
    assert_eq!(fonts_dir("C:\\Windows"), "C:\\Windows\\Fonts");
    let all = font_candidates(Some("F"));
    assert_eq!(all[0], "F\\msyh.ttc");
    assert_eq!(all.len(), 8);
    let others = font_candidates(None);
    assert_eq!(others[0], "/usr/share/fonts/truetype/noto/NotoSansCJK-Regular.ttc");
    assert_eq!(others.len(), 3);
}

#[test]
fn bytes_are_written_in_hexadecimal() {
    assert_eq!(hex_text(&vec![0, 0x0F, 0xA5, 0xFF]), "000fa5ff");
}
