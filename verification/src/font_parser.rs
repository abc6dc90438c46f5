//! Font metadata extraction.  The font binary itself is decoded by the
//! ttf-parser crate behind trusted wrappers; everything decided from what it
//! hands back — which name-table record wins, what counts as bold or italic,
//! how the batch is accounted and rendered — is verified here.  Reading the
//! candidate files is input/output and happens outside this crate: a caller
//! drives a [`CollectWalk`] to discover font files, reads each one, and
//! hands the bytes in.

use vstd::prelude::*;

use crate::text::{
    base_name, base_of, dec_str, ext_of, extension_of, lower_of, str_eq, to_lowercase,
    u64_to_string,
};
use crate::scanner::is_font_ext;
use crate::{opt_view, PendingDir, PendingModel, RawChild, RawChildModel};

verus! {

/// One font file's extracted naming and style record.
#[derive(Debug, Clone)]
pub struct FontMapping {
    pub file_path: String,
    pub font_name: String,
    pub family_name: Option<String>,
    pub style_name: Option<String>,
    pub is_bold: bool,
    pub is_italic: bool,
}

/// The mathematical model of a [`FontMapping`].
pub struct MappingModel {
    pub file_path: Seq<char>,
    pub font_name: Seq<char>,
    pub family_name: Option<Seq<char>>,
    pub style_name: Option<Seq<char>>,
    pub is_bold: bool,
    pub is_italic: bool,
}

impl View for FontMapping {
    type V = MappingModel;

    open spec fn view(&self) -> MappingModel {
        MappingModel {
            file_path: self.file_path@,
            font_name: self.font_name@,
            family_name: opt_view(self.family_name),
            style_name: opt_view(self.style_name),
            is_bold: self.is_bold,
            is_italic: self.is_italic,
        }
    }
}

/// The outcome of parsing a batch of font files.
#[derive(Debug, Clone)]
pub struct FontParseResult {
    pub total_files: usize,
    pub successful_parses: usize,
    pub failed_parses: usize,
    pub mappings: Vec<FontMapping>,
    pub errors: Vec<String>,
}

/// The mathematical model of a [`FontParseResult`].
pub struct ParseOutcomeModel {
    pub total_files: usize,
    pub successful_parses: usize,
    pub failed_parses: usize,
    pub mappings: Seq<MappingModel>,
    pub errors: Seq<Seq<char>>,
}

impl View for FontParseResult {
    type V = ParseOutcomeModel;

    open spec fn view(&self) -> ParseOutcomeModel {
        ParseOutcomeModel {
            total_files: self.total_files,
            successful_parses: self.successful_parses,
            failed_parses: self.failed_parses,
            mappings: self.mappings@.map_values(|m: FontMapping| m@),
            errors: self.errors@.map_values(|e: String| e@),
        }
    }
}

/// One record of a font's name table, as plain values.
#[derive(Debug, Clone)]
pub struct FontNameRecord {
    pub name_id: u16,
    pub text: Option<String>,
}

/// The mathematical model of a [`FontNameRecord`].
pub struct RecordModel {
    pub name_id: u16,
    pub text: Option<Seq<char>>,
}

impl View for FontNameRecord {
    type V = RecordModel;

    open spec fn view(&self) -> RecordModel {
        RecordModel { name_id: self.name_id, text: opt_view(self.text) }
    }
}

/// The models of a sequence of name records.
pub open spec fn record_models(s: Seq<FontNameRecord>) -> Seq<RecordModel> {
    s.map_values(|r: FontNameRecord| r@)
}

/// The name-table identifier of a font family name.
pub const NAME_ID_FAMILY: u16 = 1;

/// The name-table identifier of a font subfamily (style) name.
pub const NAME_ID_SUBFAMILY: u16 = 2;

/// The name-table identifier of a full font name.
pub const NAME_ID_FULL_NAME: u16 = 4;

/// The name-table identifier of a PostScript font name.
pub const NAME_ID_POST_SCRIPT_NAME: u16 = 6;

/// A face's style, as this crate keeps it.
#[derive(Debug, Clone, Copy, PartialEq, Eq, Structural)]
pub enum FontStyle {
    Normal,
    Italic,
    Oblique,
}

#[verifier::external_type_specification]
#[verifier::external_body]
pub struct ExFace<'a>(ttf_parser::Face<'a>);

/// Relies on ttf_parser::Face::parse at collection index 0: decodes the
/// font data, or reports why it cannot.
#[verifier::external_body]
fn parse_face<'a>(data: &'a [u8]) -> (r: Result<ttf_parser::Face<'a>, String>) {
    match ttf_parser::Face::parse(data, 0) {
        Ok(f) => Ok(f),
        Err(e) => Err(format!("{:?}", e)),
    }
}

/// Relies on ttf_parser::Face::names and Name::to_string: hands out every
/// name-table record's identifier with its decoded text (`None` for a
/// record without a Unicode encoding).
#[verifier::external_body]
fn face_name_records<'a>(face: &ttf_parser::Face<'a>) -> (r: Vec<FontNameRecord>) {
    let mut out: Vec<FontNameRecord> = Vec::new();
    for name in face.names() {
        out.push(FontNameRecord { name_id: name.name_id, text: name.to_string() });
    }
    out
}

/// Relies on ttf_parser::Face::weight and Weight::to_number: the face's
/// numeric weight class.
#[verifier::external_body]
fn face_weight_number<'a>(face: &ttf_parser::Face<'a>) -> (r: u16) {
    face.weight().to_number()
}

/// Relies on ttf_parser::Face::style: which of the three styles the face
/// declares, one arm per variant.
#[verifier::external_body]
fn face_style<'a>(face: &ttf_parser::Face<'a>) -> (r: FontStyle) {
    match face.style() {
        ttf_parser::Style::Normal => FontStyle::Normal,
        ttf_parser::Style::Italic => FontStyle::Italic,
        ttf_parser::Style::Oblique => FontStyle::Oblique,
    }
}

/// The text of the first record with identifier `id` that carries text;
/// `None` when no record does.
pub open spec fn first_text(recs: Seq<RecordModel>, id: u16) -> Option<Seq<char>>
    decreases recs.len(),
{
    if recs.len() == 0 {
        None
    } else {
        let prev = first_text(recs.drop_last(), id);
        if prev is Some {
            prev
        } else if recs.last().name_id == id && recs.last().text is Some {
            recs.last().text
        } else {
            None
        }
    }
}

proof fn lemma_first_text_none(recs: Seq<RecordModel>, id: u16)
    requires
        forall|j: int|
            0 <= j < recs.len() ==> !((#[trigger] recs[j]).name_id == id && recs[j].text is Some),
    ensures
        first_text(recs, id) is None,
    decreases recs.len(),
{
    if recs.len() > 0 {
        lemma_first_text_none(recs.drop_last(), id);
    }
}

proof fn lemma_first_text_at(recs: Seq<RecordModel>, id: u16, i: int)
    requires
        0 <= i < recs.len(),
        forall|j: int| 0 <= j < i ==> !((#[trigger] recs[j]).name_id == id && recs[j].text is Some),
        recs[i].name_id == id,
        recs[i].text is Some,
    ensures
        first_text(recs, id) == recs[i].text,
    decreases recs.len(),
{
    if i == recs.len() - 1 {
        let rest = recs.drop_last();
        assert forall|j: int| 0 <= j < rest.len() implies !((#[trigger] rest[j]).name_id == id
            && rest[j].text is Some) by {
            assert(rest[j] == recs[j]);
        }
        lemma_first_text_none(rest, id);
    } else {
        let rest = recs.drop_last();
        assert forall|j: int| 0 <= j < i implies !((#[trigger] rest[j]).name_id == id
            && rest[j].text is Some) by {
            assert(rest[j] == recs[j]);
        }
        assert(rest[i] == recs[i]);
        lemma_first_text_at(rest, id, i);
    }
}

/// The font name that extraction yields: the first full name, else the
/// first PostScript name, else the first family name; an error when the
/// table offers none of them.
pub open spec fn extracted_name(recs: Seq<RecordModel>) -> Result<Seq<char>, Seq<char>> {
    match first_text(recs, NAME_ID_FULL_NAME) {
        Some(t) => Ok(t),
        None => match first_text(recs, NAME_ID_POST_SCRIPT_NAME) {
            Some(t) => Ok(t),
            None => match first_text(recs, NAME_ID_FAMILY) {
                Some(t) => Ok(t),
                None => Err("无法提取字体名称"@),
            },
        },
    }
}

/// A path names a font file when the extension of its base name, lowercased,
/// is on the canonical allowlist.
pub open spec fn is_font_path(path: Seq<char>) -> bool {
    match ext_of(base_of(path)) {
        Some(raw) => is_font_ext(lower_of(raw)),
        None => false,
    }
}

/// One candidate font file: its path, and either its bytes or the error
/// text met while reading them.
#[derive(Debug)]
pub struct FontFileData {
    pub path: String,
    pub data: Result<Vec<u8>, String>,
}

/// The state of one collection walk: directories still to list, and the
/// font-file paths found so far.
#[derive(Debug)]
pub struct CollectWalk {
    pub pending: Vec<PendingDir>,
    pub files: Vec<String>,
}

/// The mathematical model of a [`CollectWalk`].
pub struct CollectModel {
    pub pending: Seq<PendingModel>,
    pub files: Seq<Seq<char>>,
}

impl View for CollectWalk {
    type V = CollectModel;

    open spec fn view(&self) -> CollectModel {
        CollectModel {
            pending: self.pending@.map_values(|d: PendingDir| d@),
            files: self.files@.map_values(|p: String| p@),
        }
    }
}

impl CollectWalk {
    /// Takes the next directory to list, if any.
    pub fn pop_pending(&mut self) -> (r: Option<PendingDir>)
        ensures
            old(self)@.pending.len() == 0 ==> r is None && final(self)@ == old(self)@,
            old(self)@.pending.len() > 0 ==> (r matches Some(d) && d@ == old(self)@.pending.last()
                && final(self)@.pending == old(self)@.pending.drop_last()
                && final(self)@.files == old(self)@.files),
    {
        let r = self.pending.pop();
        proof {
            if old(self)@.pending.len() == 0 {
                assert(final(self)@.pending =~= old(self)@.pending);
            } else {
                assert(final(self)@.pending =~= old(self)@.pending.drop_last());
            }
        }
        r
    }
}

/// Directories deeper than this are not listed while collecting.
pub const MAX_COLLECT_DEPTH: usize = 3;

/// What the collection walk decides for one raw child: an unreadable child
/// is dropped, a directory is remembered for descent, a regular file is
/// kept exactly when its path names a font file.  Hidden names are not
/// excluded here.
pub open spec fn spec_collect_child(parent: Seq<char>, c: RawChildModel)
    -> crate::scanner::ScanOutcome {
    match c.meta {
        Err(_) => crate::scanner::ScanOutcome::Skip,
        Ok(m) => if m.is_dir {
            crate::scanner::ScanOutcome::Dir(parent + "/"@ + c.name)
        } else if m.is_file && is_font_path(parent + "/"@ + c.name) {
            crate::scanner::ScanOutcome::File(
                crate::scanner::SimpleModel {
                    name: c.name,
                    path: parent + "/"@ + c.name,
                    file_type: crate::scanner::FileType::RegularFile,
                    size: m.size,
                    extension: None,
                },
            )
        } else {
            crate::scanner::ScanOutcome::Skip
        },
    }
}

/// The font-file paths that one listing keeps, in order.
pub open spec fn collect_files_of(parent: Seq<char>, cs: Seq<RawChildModel>) -> Seq<Seq<char>>
    decreases cs.len(),
{
    if cs.len() == 0 {
        Seq::empty()
    } else {
        collect_files_of(parent, cs.drop_last()) + (match spec_collect_child(parent, cs.last()) {
            crate::scanner::ScanOutcome::File(f) => seq![f.path],
            _ => Seq::empty(),
        })
    }
}

/// The directories that one listing at depth `depth` schedules, in order;
/// none once the depth cap is passed.
pub open spec fn collect_dirs_of(parent: Seq<char>, depth: usize, cs: Seq<RawChildModel>)
    -> Seq<PendingModel>
    decreases cs.len(),
{
    if cs.len() == 0 {
        Seq::empty()
    } else {
        collect_dirs_of(parent, depth, cs.drop_last()) + (match spec_collect_child(
            parent,
            cs.last(),
        ) {
            crate::scanner::ScanOutcome::Dir(p) => if depth < MAX_COLLECT_DEPTH {
                seq![PendingModel { path: p, depth: (depth + 1) as usize }]
            } else {
                Seq::empty()
            },
            _ => Seq::empty(),
        })
    }
}

/// The font parser: collection, per-file extraction, and the batch report.
pub struct FontParser;

impl FontParser {
    /// Whether `path` names a font file, by its lowercased extension.
    pub fn is_font_file(path: &str) -> (r: bool)
        ensures
            r == is_font_path(path@),
    {
        let base = base_name(path);
        match extension_of(base.as_str()) {
            Some(raw) => {
                let low = to_lowercase(raw.as_str());
                let e = low.as_str();
                str_eq(e, "ttf") || str_eq(e, "otf") || str_eq(e, "ttc") || str_eq(e, "otc")
                    || str_eq(e, "woff") || str_eq(e, "woff2") || str_eq(e, "eot")
            },
            None => false,
        }
    }

    /// Starts a collection walk at `root`.
    pub fn begin_collect(root: &str) -> (w: CollectWalk)
        ensures
            w@.pending == seq![PendingModel { path: root@, depth: 0usize }],
            w@.files == Seq::<Seq<char>>::empty(),
    {
        let mut pending: Vec<PendingDir> = Vec::new();
        pending.push(PendingDir { path: String::from_str(root), depth: 0 });
        let w = CollectWalk { pending, files: Vec::new() };
        proof {
            assert(w@.pending =~= seq![PendingModel { path: root@, depth: 0usize }]);
            assert(w@.files =~= Seq::<Seq<char>>::empty());
        }
        w
    }

    /// Consumes the listing of one popped directory.  A listing failure is
    /// dropped silently; otherwise the font-file paths are appended and the
    /// subdirectories within the depth cap are scheduled.
    pub fn collect_step(
        w: &mut CollectWalk,
        dir: &PendingDir,
        listing: Result<Vec<RawChild>, String>,
    )
        ensures
            (match listing {
                Err(_) => final(w)@ == old(w)@,
                Ok(children) => {
                    let cs = children@.map_values(|c: RawChild| c@);
                    final(w)@.files == old(w)@.files + collect_files_of(dir.path@, cs)
                        && final(w)@.pending == old(w)@.pending + collect_dirs_of(
                        dir.path@,
                        dir.depth,
                        cs,
                    )
                },
            }),
    {
        let children: Vec<RawChild> = match listing {
            Ok(children) => children,
            Err(_) => {
                return ;
            },
        };
        let ghost cs = children@.map_values(|c: RawChild| c@);
        let mut i: usize = 0;
        proof {
            assert(cs.take(0) =~= Seq::<RawChildModel>::empty());
            assert(w@.files =~= old(w)@.files + collect_files_of(dir.path@, cs.take(0)));
            assert(w@.pending =~= old(w)@.pending + collect_dirs_of(
                dir.path@,
                dir.depth,
                cs.take(0),
            ));
        }
        while i < children.len()
            invariant
                i <= children.len(),
                cs == children@.map_values(|c: RawChild| c@),
                w@.files == old(w)@.files + collect_files_of(dir.path@, cs.take(i as int)),
                w@.pending == old(w)@.pending + collect_dirs_of(
                    dir.path@,
                    dir.depth,
                    cs.take(i as int),
                ),
            decreases children.len() - i,
        {
            let ghost pre_files = w@.files;
            let ghost pre_pending = w@.pending;
            proof {
                assert(cs.take(i + 1).drop_last() =~= cs.take(i as int));
                assert(cs.take(i + 1).last() == cs[i as int]);
                assert(cs[i as int] == children@[i as int]@);
            }
            let c = &children[i];
            if let Ok(m) = &c.meta {
                if m.is_dir {
                    if dir.depth < MAX_COLLECT_DEPTH {
                        let p = crate::text::join_path(dir.path.as_str(), c.name.as_str());
                        w.pending.push(PendingDir { path: p, depth: dir.depth + 1 });
                        proof {
                            assert(w@.pending =~= pre_pending.push(
                                PendingModel {
                                    path: dir.path@ + "/"@ + c.name@,
                                    depth: (dir.depth + 1) as usize,
                                },
                            ));
                        }
                    }
                } else if m.is_file {
                    let p = crate::text::join_path(dir.path.as_str(), c.name.as_str());
                    if Self::is_font_file(p.as_str()) {
                        w.files.push(p);
                        proof {
                            assert(w@.files =~= pre_files.push(dir.path@ + "/"@ + c.name@));
                        }
                    }
                }
            }
            proof {
                assert(collect_files_of(dir.path@, cs.take(i + 1)) =~= (match spec_collect_child(
                    dir.path@,
                    cs[i as int],
                ) {
                    crate::scanner::ScanOutcome::File(f) => collect_files_of(
                        dir.path@,
                        cs.take(i as int),
                    ).push(f.path),
                    _ => collect_files_of(dir.path@, cs.take(i as int)),
                }));
                assert(collect_dirs_of(dir.path@, dir.depth, cs.take(i + 1)) =~= (
                match spec_collect_child(dir.path@, cs[i as int]) {
                    crate::scanner::ScanOutcome::Dir(p) => if dir.depth < MAX_COLLECT_DEPTH {
                        collect_dirs_of(dir.path@, dir.depth, cs.take(i as int)).push(
                            PendingModel { path: p, depth: (dir.depth + 1) as usize },
                        )
                    } else {
                        collect_dirs_of(dir.path@, dir.depth, cs.take(i as int))
                    },
                    _ => collect_dirs_of(dir.path@, dir.depth, cs.take(i as int)),
                }));
                assert(w@.files =~= old(w)@.files + collect_files_of(dir.path@, cs.take(i + 1)));
                assert(w@.pending =~= old(w)@.pending + collect_dirs_of(
                    dir.path@,
                    dir.depth,
                    cs.take(i + 1),
                ));
            }
            i = i + 1;
        }
        proof {
            assert(cs.take(children@.len() as int) =~= cs);
        }
    }

    /// The text of the first record with the given identifier.
    pub fn find_name(records: &Vec<FontNameRecord>, id: u16) -> (r: Option<String>)
        ensures
            opt_view(r) == first_text(record_models(records@), id),
    {
        let ghost rs = record_models(records@);
        let mut i: usize = 0;
        while i < records.len()
            invariant
                i <= records.len(),
                rs == record_models(records@),
                forall|j: int|
                    0 <= j < i ==> !((#[trigger] rs[j]).name_id == id && rs[j].text is Some),
            decreases records.len() - i,
        {
            proof {
                assert(rs[i as int] == records@[i as int]@);
            }
            if records[i].name_id == id {
                if let Some(t) = &records[i].text {
                    proof {
                        lemma_first_text_at(rs, id, i as int);
                    }
                    return Some(t.clone());
                }
            }
            i = i + 1;
        }
        proof {
            lemma_first_text_none(rs, id);
        }
        None
    }

    /// Extracts the font's display name: the first full name, else the
    /// first PostScript name, else the first family name.
    pub fn extract_font_name(records: &Vec<FontNameRecord>) -> (r: Result<String, String>)
        ensures
            (match r {
                Ok(n) => extracted_name(record_models(records@)) == Ok::<Seq<char>, Seq<char>>(n@),
                Err(e) => extracted_name(record_models(records@)) == Err::<Seq<char>, Seq<char>>(
                    e@,
                ),
            }),
    {
        if let Some(n) = Self::find_name(records, NAME_ID_FULL_NAME) {
            return Ok(n);
        }
        if let Some(n) = Self::find_name(records, NAME_ID_POST_SCRIPT_NAME) {
            return Ok(n);
        }
        if let Some(n) = Self::find_name(records, NAME_ID_FAMILY) {
            return Ok(n);
        }
        Err(String::from_str("无法提取字体名称"))
    }

    /// Extracts the first family name, if any.
    pub fn extract_family_name(records: &Vec<FontNameRecord>) -> (r: Option<String>)
        ensures
            opt_view(r) == first_text(record_models(records@), NAME_ID_FAMILY),
    {
        Self::find_name(records, NAME_ID_FAMILY)
    }

    /// Extracts the first subfamily (style) name, if any.
    pub fn extract_style_name(records: &Vec<FontNameRecord>) -> (r: Option<String>)
        ensures
            opt_view(r) == first_text(record_models(records@), NAME_ID_SUBFAMILY),
    {
        Self::find_name(records, NAME_ID_SUBFAMILY)
    }

    /// A face is bold when its weight class reaches 600 (semi-bold).
    pub fn is_bold_font(weight_number: u16) -> (r: bool)
        ensures
            r == (weight_number >= 600),
    {
        weight_number >= 600
    }

    /// A face is italic when its declared style is italic or oblique.
    pub fn is_italic_font(style: FontStyle) -> (r: bool)
        ensures
            r == (style is Italic || style is Oblique),
    {
        matches!(style, FontStyle::Italic | FontStyle::Oblique)
    }

    /// Parses one candidate file's bytes into its mapping: a read failure
    /// or an undecodable font yields the descriptive error, and a decoded
    /// face yields the extracted names and style flags.
    pub fn parse_font_file(path: &str, data: &Result<Vec<u8>, String>) -> (r: Result<
        FontMapping,
        String,
    >)
        ensures
            (match r {
                Ok(m) => m@.file_path == path@,
                Err(_) => true,
            }),
            (match *data {
                Err(ref e) => r matches Err(msg) && msg@ == "读取文件失败: "@ + e@,
                Ok(_) => true,
            }),
    {
        let bytes: &Vec<u8> = match data {
            Ok(b) => b,
            Err(e) => {
                let mut msg = String::from_str("读取文件失败: ");
                msg.append(e.as_str());
                return Err(msg);
            },
        };
        let face = match parse_face(bytes.as_slice()) {
            Ok(f) => f,
            Err(e) => {
                let mut msg = String::from_str("解析字体数据失败: ");
                msg.append(e.as_str());
                return Err(msg);
            },
        };
        let records = face_name_records(&face);
        let font_name = match Self::extract_font_name(&records) {
            Ok(n) => n,
            Err(e) => {
                return Err(e);
            },
        };
        let family_name = Self::extract_family_name(&records);
        let style_name = Self::extract_style_name(&records);
        let weight = face_weight_number(&face);
        let is_bold = Self::is_bold_font(weight);
        let style = face_style(&face);
        let is_italic = Self::is_italic_font(style);
        Ok(
            FontMapping {
                file_path: String::from_str(path),
                font_name,
                family_name,
                style_name,
                is_bold,
                is_italic,
            },
        )
    }

    /// Parses a batch of candidate files: every file yields exactly one
    /// mapping or one recorded error, so the counts always add up.
    pub fn parse_fonts_directory(files: Vec<FontFileData>) -> (r: FontParseResult)
        ensures
            r@.total_files == files@.len(),
            r@.successful_parses as nat == r@.mappings.len(),
            r@.failed_parses as nat == r@.errors.len(),
            r@.successful_parses + r@.failed_parses == files@.len(),
    {
        let total: usize = files.len();
        let mut mappings: Vec<FontMapping> = Vec::new();
        let mut errors: Vec<String> = Vec::new();
        let mut successful: usize = 0;
        let mut failed: usize = 0;
        let mut i: usize = 0;
        while i < files.len()
            invariant
                i <= files.len(),
                successful as nat == mappings@.len(),
                failed as nat == errors@.len(),
                successful + failed == i,
            decreases files.len() - i,
        {
            let file = &files[i];
            match Self::parse_font_file(file.path.as_str(), &file.data) {
                Ok(mapping) => {
                    mappings.push(mapping);
                    successful = successful + 1;
                },
                Err(error) => {
                    let mut msg = String::from_str("解析文件 ");
                    msg.append(file.path.as_str());
                    msg.append(" 失败: ");
                    msg.append(error.as_str());
                    errors.push(msg);
                    failed = failed + 1;
                },
            }
            i = i + 1;
        }
        FontParseResult { total_files: total, successful_parses: successful, failed_parses: failed, mappings, errors }
    }
}

/// One mapping's block in the report; `idx` is its zero-based position.
pub open spec fn mapping_block(idx: int, m: MappingModel) -> Seq<char> {
    dec_str((idx + 1) as nat) + ". "@ + m.font_name + "\n"@ + (match m.family_name {
        Some(f) => "   族名: "@ + f + "\n"@,
        None => Seq::empty(),
    }) + (match m.style_name {
        Some(s) => "   样式: "@ + s + "\n"@,
        None => Seq::empty(),
    }) + (if m.is_bold && m.is_italic {
        "   属性: 粗体, 斜体\n"@
    } else if m.is_bold {
        "   属性: 粗体\n"@
    } else if m.is_italic {
        "   属性: 斜体\n"@
    } else {
        Seq::empty()
    }) + "   文件: "@ + base_of(m.file_path) + "\n"@ + "\n"@
}

/// The mapping blocks of the report, numbered in order.
pub open spec fn mapping_blocks(s: Seq<MappingModel>) -> Seq<char>
    decreases s.len(),
{
    if s.len() == 0 {
        Seq::empty()
    } else {
        mapping_blocks(s.drop_last()) + mapping_block(s.len() - 1, s.last())
    }
}

/// The parse-error listing, one bulleted line per message.
pub open spec fn parse_error_lines(errors: Seq<Seq<char>>) -> Seq<char>
    decreases errors.len(),
{
    if errors.len() == 0 {
        Seq::empty()
    } else {
        parse_error_lines(errors.drop_last()) + "• "@ + errors.last() + "\n"@
    }
}

/// The whole human-readable report of a parse batch.
pub open spec fn parse_report(r: ParseOutcomeModel) -> Seq<char> {
    "🔤 字体解析结果\n"@ + "=============================="@ + "\n"@ + "总文件数: "@ + dec_str(
        r.total_files as nat,
    ) + "\n"@ + "成功解析: "@ + dec_str(r.successful_parses as nat) + "\n"@ + "解析失败: "@
        + dec_str(r.failed_parses as nat) + "\n"@ + "\n"@ + (if r.mappings.len() > 0 {
        "📋 字体映射信息:\n"@ + "------------------------------"@ + "\n"@ + mapping_blocks(
            r.mappings,
        )
    } else {
        Seq::empty()
    }) + (if r.errors.len() > 0 {
        "❌ 解析错误:\n"@ + "------------------------------"@ + "\n"@ + parse_error_lines(r.errors)
            + "\n"@
    } else {
        Seq::empty()
    }) + (if r.total_files == 0 {
        "ℹ️ 未找到字体文件\n"@
    } else {
        Seq::empty()
    })
}

/// Renders one mapping's block.
#[verifier::rlimit(60)]
fn mapping_block_exec(idx: usize, m: &FontMapping) -> (r: String)
    requires
        idx < usize::MAX,
    ensures
        r@ == mapping_block(idx as int, m@),
{
    let mut b = u64_to_string((idx + 1) as u64);
    b.append(". ");
    b.append(m.font_name.as_str());
    b.append("\n");
    if let Some(f) = &m.family_name {
        b.append("   族名: ");
        b.append(f.as_str());
        b.append("\n");
    }
    if let Some(s) = &m.style_name {
        b.append("   样式: ");
        b.append(s.as_str());
        b.append("\n");
    }
    if m.is_bold && m.is_italic {
        b.append("   属性: 粗体, 斜体\n");
    } else if m.is_bold {
        b.append("   属性: 粗体\n");
    } else if m.is_italic {
        b.append("   属性: 斜体\n");
    }
    b.append("   文件: ");
    let base = base_name(m.file_path.as_str());
    b.append(base.as_str());
    b.append("\n");
    b.append("\n");
    proof {
        assert(b@ =~= mapping_block(idx as int, m@));
    }
    b
}

/// Renders a parse batch as human-readable text.
#[verifier::rlimit(60)]
pub fn format_font_parse_result(result: &FontParseResult) -> (r: String)
    ensures
        r@ == parse_report(result@),
{
    let mut out = String::from_str("🔤 字体解析结果\n");
    out.append("==============================");
    out.append("\n");
    out.append("总文件数: ");
    let tf = u64_to_string(result.total_files as u64);
    out.append(tf.as_str());
    out.append("\n");
    out.append("成功解析: ");
    let sp = u64_to_string(result.successful_parses as u64);
    out.append(sp.as_str());
    out.append("\n");
    out.append("解析失败: ");
    let fp = u64_to_string(result.failed_parses as u64);
    out.append(fp.as_str());
    out.append("\n");
    out.append("\n");
    let ghost ms = result.mappings@.map_values(|m: FontMapping| m@);
    if result.mappings.len() > 0 {
        out.append("📋 字体映射信息:\n");
        out.append("------------------------------");
        out.append("\n");
        let ghost head = out@;
        proof {
            assert(ms.take(0) =~= Seq::<MappingModel>::empty());
            assert(out@ =~= head + mapping_blocks(ms.take(0)));
        }
        let mut i: usize = 0;
        while i < result.mappings.len()
            invariant
                i <= result.mappings.len(),
                ms == result.mappings@.map_values(|m: FontMapping| m@),
                out@ == head + mapping_blocks(ms.take(i as int)),
            decreases result.mappings.len() - i,
        {
            let block = mapping_block_exec(i, &result.mappings[i]);
            out.append(block.as_str());
            proof {
                assert(ms.take(i + 1).drop_last() =~= ms.take(i as int));
                assert(ms.take(i + 1).last() == ms[i as int]);
                assert(ms[i as int] == result.mappings@[i as int]@);
                assert(out@ =~= head + mapping_blocks(ms.take(i + 1)));
            }
            i = i + 1;
        }
        proof {
            assert(ms.take(result.mappings@.len() as int) =~= ms);
        }
    }
    let ghost es = result.errors@.map_values(|e: String| e@);
    if result.errors.len() > 0 {
        out.append("❌ 解析错误:\n");
        out.append("------------------------------");
        out.append("\n");
        let ghost head2 = out@;
        proof {
            assert(es.take(0) =~= Seq::<Seq<char>>::empty());
            assert(out@ =~= head2 + parse_error_lines(es.take(0)));
        }
        let mut k: usize = 0;
        while k < result.errors.len()
            invariant
                k <= result.errors.len(),
                es == result.errors@.map_values(|e: String| e@),
                out@ == head2 + parse_error_lines(es.take(k as int)),
            decreases result.errors.len() - k,
        {
            out.append("• ");
            out.append(result.errors[k].as_str());
            out.append("\n");
            proof {
                assert(es.take(k + 1).drop_last() =~= es.take(k as int));
                assert(es.take(k + 1).last() == es[k as int]);
                assert(es[k as int] == result.errors@[k as int]@);
                assert(out@ =~= head2 + parse_error_lines(es.take(k + 1)));
            }
            k = k + 1;
        }
        out.append("\n");
        proof {
            assert(es.take(result.errors@.len() as int) =~= es);
        }
    }
    if result.total_files == 0 {
        out.append("ℹ️ 未找到字体文件\n");
    }
    proof {
        assert(out@ =~= parse_report(result@));
    }
    out
}

} // verus!
