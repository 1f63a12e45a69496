//! Kinds of files, and files with the same content.

use disk_ui::categorize::{build_extension_tree, classify, compute_categories};
use disk_ui::dedup::{
    confirm_jobs, confirmed_groups, find_duplicates, header_jobs, next_phase, search_step, DuplicateGroup, HashPhase,
    SearchStep, Tally,
};
use disk_ui::digest::{hash_full_blake3, hash_window, window_len, ContentHash, Hashing, WINDOW_BYTES};
use disk_ui::duplicates::{collect_duplicate_candidates, duplicate_tree};
use disk_ui::model::{Color, Node};

const GREY: Color = Color { r: 1, g: 2, b: 3 };

fn file(name: &str, size: u64) -> Node {
    Node::new_file(name.to_string(), size, GREY)
}

fn folder(name: &str, children: Vec<Node>) -> Node {
    Node::new_folder(name.to_string(), GREY, children)
}

fn names(n: &Node) -> Vec<&str> {
    n.children.iter().map(|c| c.name.as_str()).collect()
}

#[test]
fn files_are_of_one_of_six_kinds() {
    let cases = [
        ("a.mp4", 0), ("a.MKV", 0), ("a.flv", 0), ("a.zip", 1), ("a.tar.xz", 1), ("a.7z", 1), ("setup.EXE", 2),
        ("x.dll", 2), ("run.sh", 2), ("t.txt", 3), ("r.md", 3), ("s.pptx", 3), ("p.jpeg", 4), ("p.svg", 4),
        ("README", 5), ("a.rs", 5), ("mp4", 5), (".mp4", 0), ("a.", 5), ("", 5),
    ];
    for (name, kind) in cases {
        assert_eq!(classify(name), kind, "{name}");
    }
}

#[test]
fn kinds_make_up_the_whole() {
    let root = folder("r", vec![file("a.mp4", 5), folder("d", vec![file("b.MP4", 7), file("c", 1)]), file("e.png", 2)]);
    let cats = compute_categories(&root).ok().unwrap();
    let sizes: Vec<u64> = cats.iter().map(|c| c.size).collect();
    assert_eq!(sizes, [12, 0, 0, 0, 2, 1]);
    assert_eq!(sizes.iter().sum::<u64>(), root.logical_size);
    let labels: Vec<&str> = cats.iter().map(|c| c.label).collect();
    assert_eq!(labels, ["视频", "压缩包", "程序/exe", "文档", "图片", "其他"]);
    assert_eq!(cats[0].color, Color { r: 0xE0, g: 0x55, b: 0x5B });
}

#[test]
fn kinds_that_are_too_large_are_refused() {
    let mut root = folder("r", vec![file("a.mp4", 1), file("b.mp4", 1)]);
    root.children[0].logical_size = u64::MAX;
    assert!(compute_categories(&root).is_err());
    assert!(build_extension_tree(&root, "C:\\").is_err());
}

#[test]
fn files_are_grouped_by_extension() {
    let root = folder(
        "C:\\",
        vec![file("a.TXT", 4), folder("d", vec![file("b.txt", 5), file("noext", 3), file(".hidden", 2)]), file("x.rs", 1)],
    );
    let t = build_extension_tree(&root, "C:\\").ok().unwrap();
    assert_eq!(t.name, "按扩展名分类");
    assert_eq!(names(&t), [".txt（2 个文件）", "（无扩展名）（2 个文件）", ".rs（1 个文件）"]);
    assert_eq!((t.logical_size, t.file_count, t.folder_count), (15, 5, 3));
    assert_eq!(names(&t.children[0]), ["b.txt", "a.TXT"]);
    assert_eq!(t.children[0].children[0].full_path_override.as_deref(), Some("C:\\d\\b.txt"));
    assert_eq!(t.children[1].children[1].full_path_override.as_deref(), Some("C:\\d\\.hidden"));
}

#[test]
fn starts_of_files_are_hashed() {
    let content = b"some content that starts a file";
    let digest = blake3::hash(content);
    let first = u64::from_le_bytes(digest.as_bytes()[0..8].try_into().unwrap());
    assert_eq!(hash_window(31, Some(content)), Some(first));
    assert_ne!(hash_window(31, Some(b"some other")), Some(first));
    assert_eq!(hash_window(0, None), Some(0));
    assert_eq!(hash_window(31, None), None);
    assert_eq!(window_len(10), 10);
    assert_eq!(window_len(WINDOW_BYTES + 1), WINDOW_BYTES);
}

#[test]
fn whole_files_are_hashed_part_by_part() {
    // The digest of no content is well known.
    assert_eq!(ContentHash::new().to_hex(), "af1349b9f5f9a1a6a0404dea36dcc9499bcb25c9adc112b7cc9a93cae41f3262");
    let content: Vec<u8> = (0..200_000u32).map(|i| (i * 7 % 251) as u8).collect();
    let mut h = ContentHash::new();
    for part in content.chunks(3000) {
        assert!(matches!(hash_full_blake3(&mut h, Some(part)), Hashing::More));
    }
    match hash_full_blake3(&mut h, Some(&[])) {
        Hashing::Known(hex) => assert_eq!(hex, blake3::hash(&content).to_hex().to_string()),
        _ => panic!("the end was not seen"),
    }
    assert!(matches!(hash_full_blake3(&mut h, None), Hashing::Unreadable));
    let mut g = ContentHash::new();
    assert!(g.update(b"ab"));
    assert!(g.update(b"c"));
    assert_eq!(g.to_hex(), blake3::hash(b"abc").to_hex().to_string());
}

#[test]
fn only_files_that_start_alike_are_confirmed() {
    let groups = vec![(10u64, vec![0usize, 1, 2]), (20, vec![3, 4])];
    let jobs = header_jobs(&groups);
    assert_eq!(jobs, [(0, 10), (1, 10), (2, 10), (3, 20), (4, 20)]);
    // File 2 starts otherwise, file 4 could not be read, and equal starts of other sizes do not count.
    let headers = vec![Some(7), Some(7), Some(8), Some(7), None];
    let confirm = confirm_jobs(&jobs, &headers);
    assert_eq!(confirm, [(0, 10), (1, 10)]);
    let fulls = vec![Some("aa".to_string()), Some("aa".to_string())];
    let found = confirmed_groups(&confirm, &fulls);
    assert_eq!(found.len(), 1);
    assert_eq!((found[0].size, found[0].hash_hex.as_str()), (10, "aa"));
    assert_eq!(found[0].file_indices, [0, 1]);
    assert_eq!(find_duplicates(&groups, &headers, &fulls).len(), 1);
    let other = vec![Some("aa".to_string()), Some("ab".to_string())];
    assert!(find_duplicates(&groups, &headers, &other).is_empty());
    let unreadable = vec![Some("aa".to_string()), None];
    assert!(find_duplicates(&groups, &headers, &unreadable).is_empty());
}

#[test]
fn progress_is_told_now_and_then_and_at_the_end() {
    let mut t = Tally::new(HashPhase::Prefilter, 501);
    let told: Vec<u64> = (1..=501).filter(|_| t.one_more()).collect();
    assert_eq!(told, [500, 501]);
    assert_eq!(t.done, 501);
}

#[test]
fn candidates_share_their_size() {
    let root = folder("C:\\", vec![file("a", 5), folder("d", vec![file("b", 5), file("c", 6)]), file("e", 0), file("f", 0)]);
    let c = collect_duplicate_candidates(&root, "C:\\");
    assert_eq!(c.nodes.len(), 3);
    assert_eq!(c.size_groups.len(), 1);
    let (size, members) = &c.size_groups[0];
    assert_eq!(*size, 5);
    let mut paths: Vec<&str> = members.iter().map(|&i| c.paths[i].as_str()).collect();
    paths.sort();
    assert_eq!(paths, ["C:\\a", "C:\\d\\b"]);
    for (n, p) in c.nodes.iter().zip(&c.paths) {
        assert_eq!(n.full_path_override.as_ref(), Some(p));
    }
}

#[test]
fn duplicates_become_a_tree() {
    let nodes = vec![file("a", 1024), file("b", 1024), file("c", 400), file("d", 400), file("e", 400), file("f", 400)];
    let groups = vec![
        DuplicateGroup { size: 1024, hash_hex: "x".to_string(), file_indices: vec![0, 1] },
        DuplicateGroup { size: 400, hash_hex: "y".to_string(), file_indices: vec![2, 3, 4, 5] },
    ];
    let t = duplicate_tree(&nodes, &groups).ok().unwrap();
    assert_eq!(t.name, "疑似重复文件（大小 + 内容哈希确认）");
    assert_eq!(
        names(&t),
        ["400.00 B × 4 个文件（哈希确认，可省 1.17 KB）", "1.00 KB × 2 个文件（哈希确认，可省 1.00 KB）"]
    );
    assert_eq!((t.file_count, t.logical_size), (6, 3648));
    assert_eq!(names(&t.children[0]), ["c", "d", "e", "f"]);
    let huge = vec![DuplicateGroup { size: u64::MAX, hash_hex: String::new(), file_indices: vec![0, 1, 2] }];
    assert!(duplicate_tree(&nodes, &huge).is_err());
}

#[test]
fn what_wastes_most_comes_first() {
    let nodes = vec![file("a", 100), file("b", 100), file("c", 60), file("d", 60), file("e", 60)];
    let groups = vec![
        DuplicateGroup { size: 100, hash_hex: "x".to_string(), file_indices: vec![0, 1] },
        DuplicateGroup { size: 60, hash_hex: "y".to_string(), file_indices: vec![2, 3, 4] },
    ];
    let t = duplicate_tree(&nodes, &groups).ok().unwrap();
    // Three files of 60 bytes waste 120, two of 100 only 100, though the latter are larger together.
    assert_eq!(names(&t.children[0]), ["c", "d", "e"]);
    assert_eq!(names(&t.children[1]), ["a", "b"]);
    assert_eq!((t.logical_size, t.file_count, t.folder_count), (380, 5, 2));
}

/// What a search tells, phase by phase, and the files it hashes in each.
fn searched(groups: &Vec<(u64, Vec<usize>)>, contents: &[&[u8]]) -> (Vec<(HashPhase, u64, u64)>, Vec<Vec<usize>>) {
    let (mut told, mut found) = (Vec::new(), Vec::new());
    let (mut headers, mut fulls) = (None, None);
    loop {
        match search_step(groups, headers.as_ref(), fulls.as_ref()) {
            SearchStep::Hash(phase, jobs) => {
                let mut t = Tally::new(phase, jobs.len() as u64);
                for _ in &jobs {
                    if t.one_more() {
                        told.push((t.phase, t.done, t.total));
                    }
                }
                match phase {
                    HashPhase::Prefilter => {
                        let hash = |&(f, size): &(usize, u64)| {
                            let n = window_len(size).min(contents[f].len() as u64) as usize;
                            hash_window(window_len(size), Some(&contents[f][..n]))
                        };
                        headers = Some(jobs.iter().map(hash).collect());
                    }
                    HashPhase::Confirm => {
                        let hash = |&(f, _): &(usize, u64)| Some(blake3::hash(contents[f]).to_hex().to_string());
                        fulls = Some(jobs.iter().map(hash).collect());
                    }
                }
            }
            SearchStep::Done(groups) => {
                found.extend(groups.into_iter().map(|g| g.file_indices));
                return (told, found);
            }
        }
    }
}

#[test]
fn a_search_goes_phase_by_phase() {
    // Nothing to look at: nothing is told.
    assert_eq!(searched(&Vec::new(), &[]), (vec![], vec![]));
    // Different starts: the second phase does not come.
    let groups = vec![(3u64, vec![0usize, 1])];
    assert_eq!(searched(&groups, &[b"abc", b"xyz"]), (vec![(HashPhase::Prefilter, 2, 2)], vec![]));
    // Equal files: it does, for those alone that start alike.
    let groups = vec![(3u64, vec![0usize, 1, 2]), (4, vec![3, 4])];
    let contents: [&[u8]; 5] = [b"abc", b"xyz", b"abc", b"same", b"same"];
    let told = vec![(HashPhase::Prefilter, 5, 5), (HashPhase::Confirm, 4, 4)];
    assert_eq!(searched(&groups, &contents), (told, vec![vec![0, 2], vec![3, 4]]));
}

#[test]
fn files_that_start_alike_may_differ() {
    let mut long = vec![7u8; WINDOW_BYTES as usize + 10];
    let same = long.clone();
    let first = long.clone();
    let last = long.len() - 1;
    long[last] = 8;
    let size = first.len() as u64;
    let groups = vec![(size, vec![0usize, 1, 2])];
    let (told, found) = searched(&groups, &[&first, &long, &same]);
    assert_eq!(told, [(HashPhase::Prefilter, 3, 3), (HashPhase::Confirm, 3, 3)]);
    assert_eq!(found, [vec![0, 2]]);
}

#[test]
fn the_next_phase_depends_on_what_is_left() {
    assert_eq!(next_phase(None, 0), None);
    assert_eq!(next_phase(None, 1), Some(HashPhase::Prefilter));
    assert_eq!(next_phase(Some(HashPhase::Prefilter), 0), None);
    assert_eq!(next_phase(Some(HashPhase::Prefilter), 9), Some(HashPhase::Confirm));
    assert_eq!(next_phase(Some(HashPhase::Confirm), 9), None);
}
