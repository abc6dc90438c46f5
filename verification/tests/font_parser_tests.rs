use fontscan::font_parser::{
    format_font_parse_result, FontFileData, FontNameRecord, FontParseResult, FontParser,
    NAME_ID_FAMILY, NAME_ID_FULL_NAME, NAME_ID_POST_SCRIPT_NAME, NAME_ID_SUBFAMILY,
};
use fontscan::{RawChild, RawMeta};

fn rec(id: u16, text: Option<&str>) -> FontNameRecord {
    FontNameRecord { name_id: id, text: text.map(|t| t.to_string()) }
}

fn file_child(name: &str, size: u64) -> RawChild {
    RawChild {
        name: name.to_string(),
        meta: Ok(RawMeta { is_dir: false, is_file: true, is_symlink: false, size, modified: 0 }),
    }
}

fn dir_child(name: &str) -> RawChild {
    RawChild {
        name: name.to_string(),
        meta: Ok(RawMeta { is_dir: true, is_file: false, is_symlink: false, size: 0, modified: 0 }),
    }
}

#[test]
fn test_is_font_file() {
    assert!(FontParser::is_font_file("arial.ttf"));
    assert!(FontParser::is_font_file("calibri.otf"));
    assert!(FontParser::is_font_file("roboto.ttc"));
    assert!(FontParser::is_font_file("font.otc"));
    assert!(!FontParser::is_font_file("readme.txt"));
    assert!(!FontParser::is_font_file("image.png"));
}

#[test]
fn test_is_font_file_case_and_paths() {
    assert!(FontParser::is_font_file("/some/dir/Arial.TTF"));
    assert!(FontParser::is_font_file("deep/tree/font.woff2"));
    assert!(!FontParser::is_font_file("dir.ttf/readme"));
    assert!(!FontParser::is_font_file("noextension"));
}

#[test]
fn test_format_empty_result() {
    let result = FontParseResult {
        total_files: 0,
        successful_parses: 0,
        failed_parses: 0,
        mappings: Vec::new(),
        errors: Vec::new(),
    };

    let formatted = format_font_parse_result(&result);
    assert!(formatted.contains("未找到字体文件"));
}

#[test]
fn test_extract_font_name_prefers_full_name() {
    let records = vec![
        rec(NAME_ID_FAMILY, Some("Family")),
        rec(NAME_ID_FULL_NAME, Some("Full Name")),
        rec(NAME_ID_POST_SCRIPT_NAME, Some("PostScript")),
    ];
    assert_eq!(FontParser::extract_font_name(&records).unwrap(), "Full Name");
}

#[test]
fn test_extract_font_name_fallbacks() {
    let records = vec![
        rec(NAME_ID_POST_SCRIPT_NAME, Some("PostScript")),
        rec(NAME_ID_FAMILY, Some("Family")),
    ];
    assert_eq!(FontParser::extract_font_name(&records).unwrap(), "PostScript");

    let records = vec![rec(NAME_ID_FAMILY, Some("Family"))];
    assert_eq!(FontParser::extract_font_name(&records).unwrap(), "Family");

    let records = vec![rec(NAME_ID_SUBFAMILY, Some("Bold"))];
    let err = FontParser::extract_font_name(&records).unwrap_err();
    assert_eq!(err, "无法提取字体名称");
}

#[test]
fn test_extract_skips_records_without_text() {
    let records = vec![
        rec(NAME_ID_FULL_NAME, None),
        rec(NAME_ID_FULL_NAME, Some("Readable")),
    ];
    assert_eq!(FontParser::extract_font_name(&records).unwrap(), "Readable");
    assert_eq!(FontParser::extract_family_name(&records), None);
    let records = vec![rec(NAME_ID_SUBFAMILY, Some("Italic"))];
    assert_eq!(FontParser::extract_style_name(&records), Some("Italic".to_string()));
}

#[test]
fn test_bold_and_italic_rules() {
    assert!(!FontParser::is_bold_font(400));
    assert!(!FontParser::is_bold_font(599));
    assert!(FontParser::is_bold_font(600));
    assert!(FontParser::is_bold_font(900));
    assert!(!FontParser::is_italic_font(fontscan::font_parser::FontStyle::Normal));
    assert!(FontParser::is_italic_font(fontscan::font_parser::FontStyle::Italic));
    assert!(FontParser::is_italic_font(fontscan::font_parser::FontStyle::Oblique));
}

#[test]
fn test_parse_fonts_directory_accounting() {
    let files = vec![
        FontFileData { path: "/f/broken.ttf".to_string(), data: Ok(vec![0u8, 1, 2, 3]) },
        FontFileData { path: "/f/missing.ttf".to_string(), data: Err("denied".to_string()) },
    ];
    let result = FontParser::parse_fonts_directory(files);
    assert_eq!(result.total_files, 2);
    assert_eq!(result.successful_parses + result.failed_parses, 2);
    // Garbage bytes do not decode and an unreadable file cannot be parsed.
    assert_eq!(result.successful_parses, 0);
    assert_eq!(result.failed_parses, 2);
    assert_eq!(result.mappings.len(), 0);
    assert_eq!(result.errors.len(), 2);
    assert!(result.errors[0].contains("/f/broken.ttf"));
    assert!(result.errors[1].contains("读取文件失败"));
    assert!(result.errors[1].contains("denied"));

    let report = format_font_parse_result(&result);
    assert!(report.contains("总文件数: 2"));
    assert!(report.contains("解析失败: 2"));
}

#[test]
fn test_collect_walk_keeps_fonts_and_descends() {
    let mut walk = FontParser::begin_collect("/root");
    let dir = walk.pop_pending().unwrap();
    assert_eq!(dir.path, "/root");
    assert_eq!(dir.depth, 0);
    let children = vec![
        file_child("arial.ttf", 100),
        file_child("readme.txt", 10),
        dir_child("sub"),
        file_child(".hidden.otf", 5),
    ];
    FontParser::collect_step(&mut walk, &dir, Ok(children));
    // Hidden names are not excluded by this walk.
    assert_eq!(walk.files, vec!["/root/arial.ttf".to_string(), "/root/.hidden.otf".to_string()]);
    assert_eq!(walk.pending.len(), 1);
    assert_eq!(walk.pending[0].path, "/root/sub");
    assert_eq!(walk.pending[0].depth, 1);
}

#[test]
fn test_collect_walk_depth_cap() {
    let mut walk = FontParser::begin_collect("/root");
    let mut dir = walk.pop_pending().unwrap();
    // Descend through the cap: directories at depth 3 are still listed,
    // but what they contain is not entered.
    for _ in 0..4 {
        FontParser::collect_step(&mut walk, &dir, Ok(vec![dir_child("sub")]));
        match walk.pop_pending() {
            Some(d) => dir = d,
            None => break,
        }
    }
    assert_eq!(dir.depth, 3);
    FontParser::collect_step(&mut walk, &dir, Ok(vec![dir_child("sub"), file_child("deep.ttf", 1)]));
    assert_eq!(walk.pending.len(), 0);
    assert_eq!(walk.files.len(), 1);
}
