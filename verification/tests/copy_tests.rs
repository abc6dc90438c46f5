use fontscan::font_copy::{
    detail_from_attempt, format_copy_result, record_detail, CopyResult, FontCopier,
};
use fontscan::scanner::{DirectoryScanner, FileInfo, FileType};
use fontscan::{RawChild, RawMeta};

fn font_file(name: &str, size: u64) -> FileInfo {
    FileInfo {
        name: name.to_string(),
        path: format!("/src/{}", name),
        file_type: FileType::RegularFile,
        size,
        extension: fontscan::text::extension_of(name)
            .map(|e| e.to_lowercase()),
    }
}

fn file_child(name: &str, size: u64) -> RawChild {
    RawChild {
        name: name.to_string(),
        meta: Ok(RawMeta { is_dir: false, is_file: true, is_symlink: false, size, modified: 0 }),
    }
}

/// Simulates one bulk copy run over `files`: `existing` says which
/// destinations already exist, `fails` which performed copies fail.
fn run_copy(
    copier: &FontCopier,
    files: &[FileInfo],
    existing: &[bool],
    fails: &[bool],
) -> CopyResult {
    let mut result = CopyResult::new("/src".to_string(), "/dst".to_string());
    result.total_files = files.len();
    for (i, f) in files.iter().enumerate() {
        let detail = match copier.copy_precheck(f, existing[i]) {
            Some(d) => d,
            None => {
                let outcome: Result<u64, String> = if fails[i] {
                    Err("permission denied".to_string())
                } else {
                    Ok(f.size)
                };
                detail_from_attempt(f, outcome)
            }
        };
        record_detail(&mut result, detail);
    }
    result
}

#[test]
fn test_copier_new_and_precheck() {
    let keep = FontCopier::new(false);
    assert!(!keep.overwrite);
    let f = font_file("a.ttf", 10);
    // The attempt is refused exactly when the destination exists and
    // overwriting is off.
    let refused = keep.copy_precheck(&f, true).unwrap();
    assert!(!refused.success);
    assert_eq!(refused.error, Some("文件已存在".to_string()));
    assert_eq!(refused.file_name, "a.ttf");
    assert!(keep.copy_precheck(&f, false).is_none());

    let over = FontCopier::new(true);
    assert!(over.copy_precheck(&f, true).is_none());
    assert!(over.copy_precheck(&f, false).is_none());
}

#[test]
fn test_detail_from_attempt() {
    let f = font_file("a.ttf", 10);
    let ok = detail_from_attempt(&f, Ok(10));
    assert!(ok.success);
    assert!(ok.error.is_none());
    let err = detail_from_attempt(&f, Err("boom".to_string()));
    assert!(!err.success);
    assert_eq!(err.error, Some("boom".to_string()));
}

#[test]
fn test_copy_twice_with_overwrite_never_fails() {
    let copier = FontCopier::new(true);
    let files = vec![font_file("a.ttf", 10), font_file("b.otf", 20)];
    let first = run_copy(&copier, &files, &[false, false], &[false, false]);
    assert_eq!(first.failed_copies, 0);
    assert_eq!(first.successful_copies, 2);
    // The second run finds both destinations in place; with overwriting on
    // it still fails nothing.
    let second = run_copy(&copier, &files, &[true, true], &[false, false]);
    assert_eq!(second.failed_copies, 0);
    assert_eq!(second.successful_copies, 2);
}

#[test]
fn test_copy_twice_without_overwrite_fails_everything() {
    let copier = FontCopier::new(false);
    let files = vec![font_file("a.ttf", 10), font_file("b.otf", 20)];
    let first = run_copy(&copier, &files, &[false, false], &[false, false]);
    assert_eq!(first.failed_copies, 0);
    let second = run_copy(&copier, &files, &[true, true], &[false, false]);
    assert_eq!(second.failed_copies, second.total_files);
    assert_eq!(second.successful_copies, 0);
    assert!(second.details.iter().all(|d| d.error == Some("文件已存在".to_string())));
}

#[test]
fn test_partial_failure_accounting() {
    let copier = FontCopier::new(false);
    let files =
        vec![font_file("a.ttf", 10), font_file("b.otf", 20), font_file("c.woff", 30)];
    // One of the three sources is unreadable when its turn comes.
    let result = run_copy(&copier, &files, &[false, false, false], &[false, true, false]);
    assert_eq!(result.successful_copies + result.failed_copies, 3);
    assert_eq!(result.successful_copies, 2);
    assert_eq!(result.failed_copies, 1);
    assert_eq!(result.total_size, 40);
    assert!(result.details[1].error.as_ref().unwrap().contains("permission denied"));
}

#[test]
fn test_scenario_font_discovery_and_copy() {
    let mut walk = DirectoryScanner::begin_font_walk("/fonts");
    let dir = walk.pop_pending().unwrap();
    DirectoryScanner::scan_step(
        &mut walk,
        &dir,
        Ok(vec![
            file_child("a.ttf", 10),
            file_child("b.otf", 20),
            file_child("c.txt", 5),
            file_child(".d.ttf", 3),
        ]),
    );
    assert!(walk.pop_pending().is_none());
    let fonts = DirectoryScanner::scan_fonts(walk.files);
    let names: Vec<String> = fonts.iter().map(|f| f.name.clone()).collect();
    assert_eq!(names, vec!["a.ttf", "b.otf"]);

    let copier = FontCopier::new(false);
    let result = run_copy(&copier, &fonts, &[false, false], &[false, false]);
    assert_eq!(result.total_files, 2);
    assert_eq!(result.successful_copies, 2);
    assert_eq!(result.total_size, 30);
}

#[test]
fn test_scan_fonts_sorts_and_filters() {
    let files = vec![
        font_file("zz.woff2", 1),
        font_file("aa.eot", 2),
        font_file("readme.txt", 3),
        font_file("mm.ttc", 4),
        font_file("noext", 5),
    ];
    let fonts = DirectoryScanner::scan_fonts(files);
    let names: Vec<String> = fonts.iter().map(|f| f.name.clone()).collect();
    assert_eq!(names, vec!["aa.eot", "mm.ttc", "zz.woff2"]);
}

#[test]
fn test_scan_step_policies() {
    let mut walk = DirectoryScanner::begin_font_walk("/r");
    let dir = walk.pop_pending().unwrap();
    let huge = 52428801;
    DirectoryScanner::scan_step(
        &mut walk,
        &dir,
        Ok(vec![
            file_child("big.ttf", huge),
            file_child("fine.ttf", 52428800),
            RawChild { name: "broken".to_string(), meta: Err("denied".to_string()) },
            RawChild {
                name: ".hiddendir".to_string(),
                meta: Ok(RawMeta {
                    is_dir: true,
                    is_file: false,
                    is_symlink: false,
                    size: 0,
                    modified: 0,
                }),
            },
        ]),
    );
    // The over-sized file, the unreadable child and the hidden directory
    // are all dropped silently.
    assert_eq!(walk.files.len(), 1);
    assert_eq!(walk.files[0].name, "fine.ttf");
    assert!(walk.pop_pending().is_none());
}

#[test]
fn test_format_copy_result_report() {
    let copier = FontCopier::new(false);
    let files = vec![font_file("a.ttf", 1024), font_file("b.otf", 20)];
    let mut result = run_copy(&copier, &files, &[false, true], &[false, false]);
    result.duration_ms = 12;
    let report = format_copy_result(&result);
    assert!(report.contains("字体文件复制"));
    assert!(report.contains("源目录: /src"));
    assert!(report.contains("目标目录: /dst"));
    assert!(report.contains("耗时: 12 ms"));
    assert!(report.contains("成功: 1 个"));
    assert!(report.contains("失败: 1 个"));
    assert!(report.contains("总大小: 1.00 KB"));
    assert!(report.contains("✅ a.ttf"));
    assert!(report.contains("❌ b.otf"));
    assert!(report.contains("文件已存在"));
}

#[test]
fn test_load_fonts_info_report() {
    let files = vec![font_file("a.ttf", 1024), font_file("b.otf", 20)];
    let report = fontscan::scanner::load_fonts_info("/fonts", &files);
    assert!(report.contains("目录: /fonts"));
    assert!(report.contains("找到 2 个字体文件"));
    assert!(report.contains("• a.ttf (TTF) - 1.00 KB"));
    // 1044 bytes scale to 1.0195... KB, shown truncated to two places.
    assert!(report.contains("总计: 1.01 KB"));

    let empty = fontscan::scanner::load_fonts_info("/fonts", &Vec::new());
    assert!(empty.contains("未找到字体文件"));
}
