use fontscan::{
    format_scan_result, sort_entries, Classified, DirectoryScanner, FileInfo, FileType, RawChild,
    RawMeta, ScanConfig,
};

fn file_child(name: &str, size: u64) -> RawChild {
    RawChild {
        name: name.to_string(),
        meta: Ok(RawMeta { is_dir: false, is_file: true, is_symlink: false, size, modified: 0 }),
    }
}

fn dir_child(name: &str) -> RawChild {
    RawChild {
        name: name.to_string(),
        meta: Ok(RawMeta { is_dir: true, is_file: false, is_symlink: false, size: 0, modified: 0 }),
    }
}

fn entry(name: &str, kind: FileType, size: u64) -> FileInfo {
    FileInfo {
        name: name.to_string(),
        path: format!("/r/{}", name),
        file_type: kind,
        size,
        modified_time: 0,
        extension: None,
        mime_type: None,
        is_hidden: false,
    }
}

fn names(files: &[FileInfo]) -> Vec<String> {
    files.iter().map(|f| f.name.clone()).collect()
}

#[test]
fn test_mime_type_detection() {
    let scanner = DirectoryScanner::new(ScanConfig::default());
    let mime = scanner.detect_mime_type(&Some("ttf".to_string()));
    assert_eq!(mime, Some("font/ttf".to_string()));
    let mime = scanner.detect_mime_type(&Some("txt".to_string()));
    assert_eq!(mime, Some("text/plain".to_string()));
}

#[test]
fn test_mime_woff2_and_unknown() {
    let scanner = DirectoryScanner::new(ScanConfig::default());
    assert_eq!(scanner.detect_mime_type(&Some("woff2".to_string())), Some("font/woff2".to_string()));
    assert_eq!(scanner.detect_mime_type(&Some("xyz".to_string())), None);
    assert_eq!(scanner.detect_mime_type(&None), None);
}

#[test]
fn test_classifier_hidden_excluded_by_default() {
    let scanner = DirectoryScanner::new(ScanConfig::default());
    let child = file_child(".d.ttf", 3);
    assert!(matches!(scanner.process_entry("/r", &child), Classified::Skipped));
}

#[test]
fn test_classifier_hidden_included_when_asked() {
    let config = ScanConfig { include_hidden: true, ..Default::default() };
    let scanner = DirectoryScanner::new(config);
    let child = file_child(".d.ttf", 3);
    match scanner.process_entry("/r", &child) {
        Classified::Kept(f) => {
            assert!(f.is_hidden);
            assert_eq!(f.name, ".d.ttf");
            assert_eq!(f.extension, Some("ttf".to_string()));
            assert_eq!(f.path, "/r/.d.ttf");
        }
        _ => panic!("a dotfile must be kept when hidden names are included"),
    }
}

#[test]
fn test_classifier_fields_and_lowercasing() {
    let scanner = DirectoryScanner::new(ScanConfig::default());
    match scanner.process_entry("/r", &file_child("Arial.TTF", 42)) {
        Classified::Kept(f) => {
            assert_eq!(f.extension, Some("ttf".to_string()));
            assert_eq!(f.mime_type, Some("font/ttf".to_string()));
            assert!(matches!(f.file_type, FileType::RegularFile));
            assert_eq!(f.size, 42);
            assert!(!f.is_hidden);
        }
        _ => panic!("a plain readable file must be kept"),
    }
}

#[test]
fn test_classifier_symlink_policy_and_metadata_failure() {
    let scanner = DirectoryScanner::new(ScanConfig::default());
    let link = RawChild {
        name: "link".to_string(),
        meta: Ok(RawMeta { is_dir: false, is_file: false, is_symlink: true, size: 0, modified: 0 }),
    };
    assert!(matches!(scanner.process_entry("/r", &link), Classified::Skipped));

    let follow = ScanConfig { follow_symlinks: true, ..Default::default() };
    let scanner2 = DirectoryScanner::new(follow);
    match scanner2.process_entry("/r", &link) {
        Classified::Kept(f) => assert!(matches!(f.file_type, FileType::SymbolicLink)),
        _ => panic!("a symbolic link must be kept when links are followed"),
    }

    let broken = RawChild { name: "broken".to_string(), meta: Err("denied".to_string()) };
    match scanner.process_entry("/r", &broken) {
        Classified::Failed(msg) => {
            assert!(msg.contains("无法读取文件元数据"));
            assert!(msg.contains("/r/broken"));
            assert!(msg.contains("denied"));
        }
        _ => panic!("a metadata failure must be recorded"),
    }
}

#[test]
fn test_classifier_size_limit() {
    let config = ScanConfig { size_limit: Some(5), ..Default::default() };
    let scanner = DirectoryScanner::new(config);
    assert!(matches!(scanner.process_entry("/r", &file_child("big.txt", 6)), Classified::Skipped));
    assert!(matches!(scanner.process_entry("/r", &file_child("ok.txt", 5)), Classified::Kept(_)));
    // The ceiling applies to regular files, not directories.
    assert!(matches!(scanner.process_entry("/r", &dir_child("subdir")), Classified::Kept(_)));
}

#[test]
fn test_sorting_directories_first_then_names() {
    let files = vec![
        entry("zeta.txt", FileType::RegularFile, 1),
        entry("beta", FileType::Directory, 0),
        entry("alpha.txt", FileType::RegularFile, 2),
        entry("link", FileType::SymbolicLink, 0),
        entry("alpha", FileType::Directory, 0),
    ];
    let sorted = sort_entries(&files);
    assert_eq!(names(&sorted), vec!["alpha", "beta", "alpha.txt", "link", "zeta.txt"]);
}

#[test]
fn test_sorting_is_idempotent() {
    let files = vec![
        entry("c.txt", FileType::RegularFile, 1),
        entry("b", FileType::Directory, 0),
        entry("a.txt", FileType::RegularFile, 2),
    ];
    let once = sort_entries(&files);
    let twice = sort_entries(&once);
    assert_eq!(names(&once), names(&twice));
    assert_eq!(names(&once), vec!["b", "a.txt", "c.txt"]);
}

#[test]
fn test_sorting_is_stable() {
    // Two entries with the same name and group keep their given order.
    let mut first = entry("same.txt", FileType::RegularFile, 1);
    first.path = "/r/one/same.txt".to_string();
    let mut second = entry("same.txt", FileType::RegularFile, 2);
    second.path = "/r/two/same.txt".to_string();
    let files = vec![entry("z", FileType::Directory, 0), first, second];
    let sorted = sort_entries(&files);
    assert_eq!(sorted[1].path, "/r/one/same.txt");
    assert_eq!(sorted[2].path, "/r/two/same.txt");
}

#[test]
fn test_stats_counts_sum_and_largest() {
    let scanner = DirectoryScanner::new(ScanConfig::default());
    let files = vec![
        entry("d", FileType::Directory, 123),
        entry("a.bin", FileType::RegularFile, 10),
        entry("b.bin", FileType::RegularFile, 30),
        entry("link", FileType::SymbolicLink, 99),
        entry("c.bin", FileType::RegularFile, 30),
    ];
    let stats = scanner.calculate_stats(&files, 17, 2);
    assert_eq!(stats.total_files, 3);
    assert_eq!(stats.total_directories, 1);
    // Only regular files count toward the byte total.
    assert_eq!(stats.total_size, 70);
    // The tie between b.bin and c.bin goes to the earlier entry.
    assert_eq!(stats.largest_file.as_ref().unwrap().name, "b.bin");
    assert_eq!(stats.scan_duration_ms, 17);
    assert_eq!(stats.errors_count, 2);
    // Directory and file counts never outnumber the entries.
    assert!(stats.total_files + stats.total_directories <= files.len());
}

#[test]
fn test_stats_empty() {
    let scanner = DirectoryScanner::new(ScanConfig::default());
    let stats = scanner.calculate_stats(&Vec::new(), 0, 0);
    assert_eq!(stats.total_files, 0);
    assert_eq!(stats.total_directories, 0);
    assert_eq!(stats.total_size, 0);
    assert!(stats.largest_file.is_none());
}

#[test]
fn test_depth_zero_enters_no_subdirectory() {
    let config = ScanConfig { recursive: true, max_depth: Some(0), ..Default::default() };
    let scanner = DirectoryScanner::new(config);
    let mut st = scanner.begin_walk("/r");
    let dir = st.pop_pending().unwrap();
    scanner.process_listing(&mut st, &dir, Ok(vec![dir_child("sub"), file_child("a.txt", 1)]));
    // The subdirectory is reported but never scheduled.
    assert_eq!(st.pending.len(), 0);
    assert_eq!(st.entries.len(), 2);
}

#[test]
fn test_recursive_walk_descends_in_order() {
    let config = ScanConfig { recursive: true, max_depth: Some(4), ..Default::default() };
    let scanner = DirectoryScanner::new(config);
    let mut st = scanner.begin_walk("/r");
    let root = st.pop_pending().unwrap();
    scanner.process_listing(
        &mut st,
        &root,
        Ok(vec![dir_child("one"), file_child("x.txt", 1), dir_child("two")]),
    );
    // Siblings pop in their listed order, depth first.
    let next = st.pop_pending().unwrap();
    assert_eq!(next.path, "/r/one");
    assert_eq!(next.depth, 1);
    scanner.process_listing(&mut st, &next, Ok(vec![file_child("nested.json", 2)]));
    let next = st.pop_pending().unwrap();
    assert_eq!(next.path, "/r/two");
    scanner.process_listing(&mut st, &next, Ok(Vec::new()));
    assert!(st.pop_pending().is_none());
    let result = scanner.scan("/r".to_string(), st, 3);
    assert!(result.files.iter().any(|f| f.name == "nested.json"));
    assert_eq!(result.errors.len(), 0);
}

#[test]
fn test_non_recursive_walk_stays_at_root() {
    let scanner = DirectoryScanner::new(ScanConfig::default());
    let mut st = scanner.begin_walk("/r");
    let root = st.pop_pending().unwrap();
    scanner.process_listing(&mut st, &root, Ok(vec![dir_child("sub"), file_child("a.txt", 1)]));
    assert!(st.pop_pending().is_none());
}

#[test]
fn test_listing_failure_is_recorded_and_walk_goes_on() {
    let scanner = DirectoryScanner::new(ScanConfig::default());
    let mut st = scanner.begin_walk("/r");
    let root = st.pop_pending().unwrap();
    scanner.process_listing(&mut st, &root, Err("permission denied".to_string()));
    assert_eq!(st.entries.len(), 0);
    assert_eq!(st.errors.len(), 1);
    assert!(st.errors[0].contains("无法读取目录 /r"));
    assert!(st.errors[0].contains("permission denied"));
    let result = scanner.scan("/r".to_string(), st, 1);
    assert_eq!(result.stats.errors_count, 1);
}

#[test]
fn test_scan_config_filters() {
    let config = ScanConfig { file_filters: vec!["ttf".to_string()], ..Default::default() };
    let scanner = DirectoryScanner::new(config);
    let mut st = scanner.begin_walk("/r");
    let root = st.pop_pending().unwrap();
    scanner.process_listing(
        &mut st,
        &root,
        Ok(vec![file_child("font.ttf", 1), file_child("test.txt", 2), dir_child("subdir")]),
    );
    let result = scanner.scan("/r".to_string(), st, 0);
    assert!(result
        .files
        .iter()
        .all(|f| f.extension == Some("ttf".to_string())
            || matches!(f.file_type, FileType::Directory)));
    assert_eq!(names(&result.files), vec!["font.ttf"]);
}

#[test]
fn test_scenario_default_scan() {
    let scanner = DirectoryScanner::new(ScanConfig::default());
    let mut st = scanner.begin_walk("/fonts");
    let root = st.pop_pending().unwrap();
    scanner.process_listing(
        &mut st,
        &root,
        Ok(vec![
            file_child("a.ttf", 10),
            file_child("b.otf", 20),
            file_child("c.txt", 5),
            file_child(".d.ttf", 3),
        ]),
    );
    let result = scanner.scan("/fonts".to_string(), st, 2);
    assert_eq!(names(&result.files), vec!["a.ttf", "b.otf", "c.txt"]);
    assert_eq!(result.stats.total_files, 3);
    assert_eq!(result.stats.total_size, 35);

    let report = format_scan_result(&result);
    assert!(report.contains("扫描目录: /fonts"));
    assert!(report.contains("统计信息"));
    assert!(report.contains("文件总数: 3"));
    assert!(report.contains("a.ttf"));
    assert!(report.contains("font/ttf"));
}

/// Walks the fixture tree used across these tests: a root holding
/// `subdir/nested.json`, `test.txt`, `font.ttf` and a hidden `.hidden`.
fn walk_fixture(scanner: &DirectoryScanner) -> fontscan::ScanResult {
    let mut st = scanner.begin_walk("/fixture");
    while let Some(dir) = st.pop_pending() {
        let listing = if dir.path == "/fixture" {
            vec![
                dir_child("subdir"),
                file_child("test.txt", 13),
                file_child("font.ttf", 14),
                file_child(".hidden", 14),
            ]
        } else {
            vec![file_child("nested.json", 14)]
        };
        scanner.process_listing(&mut st, &dir, Ok(listing));
    }
    scanner.scan("/fixture".to_string(), st, 0)
}

#[test]
fn test_directory_scanner_basic() {
    let scanner = DirectoryScanner::new(ScanConfig::default());
    let result = walk_fixture(&scanner);

    assert_eq!(result.errors.len(), 0);
    assert!(result.files.len() >= 3);
    assert!(result.files.iter().any(|f| matches!(f.file_type, FileType::Directory)));
    assert!(result.files.iter().any(|f| f.extension == Some("txt".to_string())));
    assert!(result.files.iter().any(|f| f.extension == Some("ttf".to_string())));
}

#[test]
fn test_directory_scanner_recursive() {
    let config = ScanConfig { recursive: true, ..Default::default() };
    let scanner = DirectoryScanner::new(config);
    let result = walk_fixture(&scanner);

    assert!(result.files.iter().any(|f| f.name == "nested.json"));
}

#[test]
fn test_directory_scanner_hidden_files() {
    let config = ScanConfig { include_hidden: true, ..Default::default() };
    let scanner = DirectoryScanner::new(config);
    let result = walk_fixture(&scanner);

    assert!(result.files.iter().any(|f| f.name == ".hidden"));
}

#[test]
fn test_size_limit() {
    let config = ScanConfig { size_limit: Some(5), ..Default::default() };
    let scanner = DirectoryScanner::new(config);
    let result = walk_fixture(&scanner);

    for file in &result.files {
        if matches!(file.file_type, FileType::RegularFile) {
            assert!(file.size <= 5);
        }
    }
}

#[test]
fn test_format_scan_result_error_section() {
    let scanner = DirectoryScanner::new(ScanConfig::default());
    let result =
        scanner.scan_failed("/nope".to_string(), "路径不存在: /nope".to_string(), 1);
    assert_eq!(result.files.len(), 0);
    assert_eq!(result.errors.len(), 1);
    let report = format_scan_result(&result);
    assert!(report.contains("路径不存在"));
    assert!(report.contains("错误信息"));
}
