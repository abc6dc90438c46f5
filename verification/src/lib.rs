//! Directory-tree inventory and aggregation.
//!
//! The scanner classifies directory entries, infers content types from file
//! extensions, filters and sorts the classified entries, and rolls them up
//! into summary statistics.  Listing directories is input/output and happens
//! outside this crate: a caller drives a [`WalkState`] by popping pending
//! directories, listing each one, and handing the listing back to
//! [`DirectoryScanner::process_listing`]; every decision about the listing is
//! made and verified here.

pub mod text;
pub mod scanner;
pub mod font_copy;
pub mod font_parser;

use vstd::prelude::*;

use crate::text::{
    contains_seq, dec_str, ext_of, extension_of, format_size, join_path, lower_of, size_str,
    str_contains, str_eq, to_lowercase, u64_to_string,
};

verus! {

/// The kind of a classified directory entry.
#[derive(Debug, Clone, Copy, PartialEq, Eq, Structural)]
pub enum FileType {
    Directory,
    RegularFile,
    SymbolicLink,
    Other,
}

/// One classified filesystem object with its metadata snapshot.
#[derive(Debug, Clone)]
pub struct FileInfo {
    pub name: String,
    pub path: String,
    pub file_type: FileType,
    pub size: u64,
    pub modified_time: u64,
    pub extension: Option<String>,
    pub mime_type: Option<String>,
    pub is_hidden: bool,
}

/// The mathematical model of a [`FileInfo`]: the same fields with strings
/// abstracted to character sequences.
pub struct EntryModel {
    pub name: Seq<char>,
    pub path: Seq<char>,
    pub file_type: FileType,
    pub size: u64,
    pub modified_time: u64,
    pub extension: Option<Seq<char>>,
    pub mime_type: Option<Seq<char>>,
    pub is_hidden: bool,
}

/// The view of an optional string: its optional character sequence.
pub open spec fn opt_view(o: Option<String>) -> Option<Seq<char>> {
    match o {
        Some(s) => Some(s@),
        None => None,
    }
}

impl View for FileInfo {
    type V = EntryModel;

    open spec fn view(&self) -> EntryModel {
        EntryModel {
            name: self.name@,
            path: self.path@,
            file_type: self.file_type,
            size: self.size,
            modified_time: self.modified_time,
            extension: opt_view(self.extension),
            mime_type: opt_view(self.mime_type),
            is_hidden: self.is_hidden,
        }
    }
}

/// The models of a sequence of entries.
pub open spec fn models(s: Seq<FileInfo>) -> Seq<EntryModel> {
    s.map_values(|f: FileInfo| f@)
}

impl FileInfo {
    /// A copy of this entry with the same model.
    pub fn duplicate(&self) -> (r: FileInfo)
        ensures
            r@ == self@,
    {
        FileInfo {
            name: self.name.clone(),
            path: self.path.clone(),
            file_type: self.file_type,
            size: self.size,
            modified_time: self.modified_time,
            extension: clone_opt_string(&self.extension),
            mime_type: clone_opt_string(&self.mime_type),
            is_hidden: self.is_hidden,
        }
    }
}

/// A copy of an optional string with the same view.
pub fn clone_opt_string(o: &Option<String>) -> (r: Option<String>)
    ensures
        opt_view(r) == opt_view(*o),
{
    match o {
        Some(s) => Some(s.clone()),
        None => None,
    }
}

/// Configuration of one traversal; never mutated during a scan.
#[derive(Debug, Clone)]
pub struct ScanConfig {
    pub recursive: bool,
    pub include_hidden: bool,
    pub max_depth: Option<usize>,
    pub follow_symlinks: bool,
    pub file_filters: Vec<String>,
    pub size_limit: Option<u64>,
}

/// The mathematical model of a [`ScanConfig`].
pub struct ConfigModel {
    pub recursive: bool,
    pub include_hidden: bool,
    pub max_depth: Option<usize>,
    pub follow_symlinks: bool,
    pub file_filters: Seq<Seq<char>>,
    pub size_limit: Option<u64>,
}

impl View for ScanConfig {
    type V = ConfigModel;

    open spec fn view(&self) -> ConfigModel {
        ConfigModel {
            recursive: self.recursive,
            include_hidden: self.include_hidden,
            max_depth: self.max_depth,
            follow_symlinks: self.follow_symlinks,
            file_filters: self.file_filters@.map_values(|f: String| f@),
            size_limit: self.size_limit,
        }
    }
}

/// The default configuration: non-recursive, hidden files excluded, no depth
/// bound, symbolic links not followed, no filters, no size ceiling.
pub open spec fn default_config() -> ConfigModel {
    ConfigModel {
        recursive: false,
        include_hidden: false,
        max_depth: None,
        follow_symlinks: false,
        file_filters: Seq::empty(),
        size_limit: None,
    }
}

impl Default for ScanConfig {
    fn default() -> (c: Self)
        ensures
            c@ == default_config(),
    {
        let c = ScanConfig {
            recursive: false,
            include_hidden: false,
            max_depth: None,
            follow_symlinks: false,
            file_filters: Vec::new(),
            size_limit: None,
        };
        proof {
            assert(c@.file_filters =~= Seq::<Seq<char>>::empty());
        }
        c
    }
}

/// Summary statistics over one traversal outcome.
#[derive(Debug, Clone)]
pub struct ScanStats {
    pub total_files: usize,
    pub total_directories: usize,
    pub total_size: u64,
    pub largest_file: Option<FileInfo>,
    pub scan_duration_ms: u64,
    pub errors_count: usize,
}

/// The mathematical model of [`ScanStats`].
pub struct StatsModel {
    pub total_files: usize,
    pub total_directories: usize,
    pub total_size: u64,
    pub largest_file: Option<EntryModel>,
    pub scan_duration_ms: u64,
    pub errors_count: usize,
}

impl View for ScanStats {
    type V = StatsModel;

    open spec fn view(&self) -> StatsModel {
        StatsModel {
            total_files: self.total_files,
            total_directories: self.total_directories,
            total_size: self.total_size,
            largest_file: match self.largest_file {
                Some(f) => Some(f@),
                None => None,
            },
            scan_duration_ms: self.scan_duration_ms,
            errors_count: self.errors_count,
        }
    }
}

/// The outcome of one traversal: the classified entries and the errors met.
#[derive(Debug, Clone)]
pub struct ScanResult {
    pub root_path: String,
    pub files: Vec<FileInfo>,
    pub stats: ScanStats,
    pub errors: Vec<String>,
}

/// The mathematical model of a [`ScanResult`].
pub struct ResultModel {
    pub root_path: Seq<char>,
    pub files: Seq<EntryModel>,
    pub stats: StatsModel,
    pub errors: Seq<Seq<char>>,
}

impl View for ScanResult {
    type V = ResultModel;

    open spec fn view(&self) -> ResultModel {
        ResultModel {
            root_path: self.root_path@,
            files: models(self.files@),
            stats: self.stats@,
            errors: self.errors@.map_values(|e: String| e@),
        }
    }
}

/// The content type for a (lowercase) extension, from the fixed lookup
/// table; `None` for an unrecognized extension.
pub open spec fn mime_of(ext: Seq<char>) -> Option<Seq<char>> {
    if ext == "ttf"@ {
        Some("font/ttf"@)
    } else if ext == "otf"@ {
        Some("font/otf"@)
    } else if ext == "woff"@ {
        Some("font/woff"@)
    } else if ext == "woff2"@ {
        Some("font/woff2"@)
    } else if ext == "eot"@ {
        Some("application/vnd.ms-fontobject"@)
    } else if ext == "jpg"@ || ext == "jpeg"@ {
        Some("image/jpeg"@)
    } else if ext == "png"@ {
        Some("image/png"@)
    } else if ext == "gif"@ {
        Some("image/gif"@)
    } else if ext == "bmp"@ {
        Some("image/bmp"@)
    } else if ext == "webp"@ {
        Some("image/webp"@)
    } else if ext == "svg"@ {
        Some("image/svg+xml"@)
    } else if ext == "pdf"@ {
        Some("application/pdf"@)
    } else if ext == "doc"@ {
        Some("application/msword"@)
    } else if ext == "docx"@ {
        Some("application/vnd.openxmlformats-officedocument.wordprocessingml.document"@)
    } else if ext == "txt"@ {
        Some("text/plain"@)
    } else if ext == "json"@ {
        Some("application/json"@)
    } else if ext == "xml"@ {
        Some("application/xml"@)
    } else if ext == "mp3"@ {
        Some("audio/mpeg"@)
    } else if ext == "wav"@ {
        Some("audio/wav"@)
    } else if ext == "ogg"@ {
        Some("audio/ogg"@)
    } else if ext == "mp4"@ {
        Some("video/mp4"@)
    } else if ext == "avi"@ {
        Some("video/x-msvideo"@)
    } else if ext == "mov"@ {
        Some("video/quicktime"@)
    } else {
        None
    }
}

/// The metadata of one directory child, as plain values.  The caller reads
/// it from the filesystem and hands it in; everything decided from it is
/// decided here.
#[derive(Debug, Clone, Copy)]
pub struct RawMeta {
    pub is_dir: bool,
    pub is_file: bool,
    pub is_symlink: bool,
    pub size: u64,
    pub modified: u64,
}

/// One raw directory child: its name, and either its metadata or the error
/// text met while reading the metadata.
#[derive(Debug)]
pub struct RawChild {
    pub name: String,
    pub meta: Result<RawMeta, String>,
}

/// The mathematical model of a [`RawChild`].
pub struct RawChildModel {
    pub name: Seq<char>,
    pub meta: Result<RawMeta, Seq<char>>,
}

impl View for RawChild {
    type V = RawChildModel;

    open spec fn view(&self) -> RawChildModel {
        RawChildModel {
            name: self.name@,
            meta: match self.meta {
                Ok(m) => Ok(m),
                Err(ref e) => Err(e@),
            },
        }
    }
}

/// What classification decides for one child: keep it as an entry, skip it
/// by policy, or record a per-entry failure message.
#[derive(Debug)]
pub enum Classified {
    Kept(FileInfo),
    Skipped,
    Failed(String),
}

/// The mathematical model of a [`Classified`].
pub enum ClassifiedModel {
    Kept(EntryModel),
    Skipped,
    Failed(Seq<char>),
}

impl View for Classified {
    type V = ClassifiedModel;

    open spec fn view(&self) -> ClassifiedModel {
        match self {
            Classified::Kept(f) => ClassifiedModel::Kept(f@),
            Classified::Skipped => ClassifiedModel::Skipped,
            Classified::Failed(e) => ClassifiedModel::Failed(e@),
        }
    }
}

/// A name is hidden when it starts with a dot.
pub open spec fn is_hidden_name(name: Seq<char>) -> bool {
    name.len() > 0 && name[0] == '.'
}

/// The kind derived from metadata; `None` for a symbolic link that policy
/// excludes.
pub open spec fn kind_of(cfg: ConfigModel, m: RawMeta) -> Option<FileType> {
    if m.is_dir {
        Some(FileType::Directory)
    } else if m.is_file {
        Some(FileType::RegularFile)
    } else if m.is_symlink {
        if cfg.follow_symlinks {
            Some(FileType::SymbolicLink)
        } else {
            None
        }
    } else {
        Some(FileType::Other)
    }
}

/// The message recorded when a child's metadata cannot be read.
pub open spec fn meta_error_msg(path: Seq<char>, e: Seq<char>) -> Seq<char> {
    "无法读取文件元数据 "@ + path + ": "@ + e
}

/// What classification returns for one raw child under a configuration:
/// hidden names are skipped unless included, a metadata failure is recorded,
/// the kind is derived from the metadata (symbolic links only when followed),
/// an over-sized regular file is skipped, and a kept entry carries its
/// lowercased extension and the content type looked up from it.
pub open spec fn spec_classify(cfg: ConfigModel, parent: Seq<char>, c: RawChildModel)
    -> ClassifiedModel {
    let hidden = is_hidden_name(c.name);
    if hidden && !cfg.include_hidden {
        ClassifiedModel::Skipped
    } else {
        match c.meta {
            Err(e) => ClassifiedModel::Failed(meta_error_msg(parent + "/"@ + c.name, e)),
            Ok(m) => match kind_of(cfg, m) {
                None => ClassifiedModel::Skipped,
                Some(kind) => if kind is RegularFile && (cfg.size_limit matches Some(l)
                    && m.size > l) {
                    ClassifiedModel::Skipped
                } else {
                    let ext = match ext_of(c.name) {
                        Some(raw) => Some(lower_of(raw)),
                        None => None,
                    };
                    ClassifiedModel::Kept(
                        EntryModel {
                            name: c.name,
                            path: parent + "/"@ + c.name,
                            file_type: kind,
                            size: m.size,
                            modified_time: m.modified,
                            extension: ext,
                            mime_type: match ext {
                                Some(e) => mime_of(e),
                                None => None,
                            },
                            is_hidden: hidden,
                        },
                    )
                },
            },
        }
    }
}

/// One directory waiting to be listed.  `depth` is the depth of its
/// children: the root's children are at depth 0.
#[derive(Debug, Clone)]
pub struct PendingDir {
    pub path: String,
    pub depth: usize,
}

/// The mathematical model of a [`PendingDir`].
pub struct PendingModel {
    pub path: Seq<char>,
    pub depth: usize,
}

impl View for PendingDir {
    type V = PendingModel;

    open spec fn view(&self) -> PendingModel {
        PendingModel { path: self.path@, depth: self.depth }
    }
}

/// The state of one traversal: the directories still to list (a stack, so
/// the walk is depth first), the entries classified so far, and the error
/// messages recorded so far.
#[derive(Debug)]
pub struct WalkState {
    pub pending: Vec<PendingDir>,
    pub entries: Vec<FileInfo>,
    pub errors: Vec<String>,
}

/// The mathematical model of a [`WalkState`].
pub struct WalkModel {
    pub pending: Seq<PendingModel>,
    pub entries: Seq<EntryModel>,
    pub errors: Seq<Seq<char>>,
}

impl View for WalkState {
    type V = WalkModel;

    open spec fn view(&self) -> WalkModel {
        WalkModel {
            pending: self.pending@.map_values(|d: PendingDir| d@),
            entries: models(self.entries@),
            errors: self.errors@.map_values(|e: String| e@),
        }
    }
}

impl WalkState {
    /// Takes the next directory to list, if any.
    pub fn pop_pending(&mut self) -> (r: Option<PendingDir>)
        ensures
            old(self)@.pending.len() == 0 ==> r is None && final(self)@ == old(self)@,
            old(self)@.pending.len() > 0 ==> (r matches Some(d) && d@ == old(self)@.pending.last()
                && final(self)@.pending == old(self)@.pending.drop_last()
                && final(self)@.entries == old(self)@.entries
                && final(self)@.errors == old(self)@.errors),
    {
        let r = self.pending.pop();
        proof {
            if old(self)@.pending.len() == 0 {
                assert(final(self)@.pending =~= old(self)@.pending);
            } else {
                assert(final(self)@.pending =~= old(self)@.pending.drop_last());
            }
        }
        r
    }
}

/// Whether a directory whose children sit at `child_depth` may be entered:
/// only on a recursive traversal, and only while the depth budget remains.
pub open spec fn should_enter(cfg: ConfigModel, child_depth: usize) -> bool {
    cfg.recursive && (match cfg.max_depth {
        None => true,
        Some(d) => (child_depth as int) < d,
    })
}

/// With a depth bound of zero, no directory is ever entered: the traversal
/// reports the root's immediate children and descends nowhere.
pub proof fn lemma_depth_zero_blocks_descent(cfg: ConfigModel, child_depth: usize)
    requires
        cfg.max_depth == Some(0usize),
    ensures
        !should_enter(cfg, child_depth),
{
}

/// The message recorded when a directory cannot be listed.
pub open spec fn read_error_msg(path: Seq<char>, e: Seq<char>) -> Seq<char> {
    "无法读取目录 "@ + path + ": "@ + e
}

/// The entries that classifying `children` under `parent` keeps, in order.
pub open spec fn kept_of(cfg: ConfigModel, parent: Seq<char>, children: Seq<RawChildModel>)
    -> Seq<EntryModel>
    decreases children.len(),
{
    if children.len() == 0 {
        Seq::empty()
    } else {
        kept_of(cfg, parent, children.drop_last()) + (match spec_classify(
            cfg,
            parent,
            children.last(),
        ) {
            ClassifiedModel::Kept(e) => seq![e],
            _ => Seq::empty(),
        })
    }
}

/// The failure messages that classifying `children` under `parent` records,
/// in order.
pub open spec fn errors_of(cfg: ConfigModel, parent: Seq<char>, children: Seq<RawChildModel>)
    -> Seq<Seq<char>>
    decreases children.len(),
{
    if children.len() == 0 {
        Seq::empty()
    } else {
        errors_of(cfg, parent, children.drop_last()) + (match spec_classify(
            cfg,
            parent,
            children.last(),
        ) {
            ClassifiedModel::Failed(e) => seq![e],
            _ => Seq::empty(),
        })
    }
}

/// The subdirectories that a listing at child depth `depth` schedules for
/// descent, in the order the children appear: the kept directory entries,
/// taken only while the depth budget admits entering them.
pub open spec fn subdirs_of(
    cfg: ConfigModel,
    parent: Seq<char>,
    depth: usize,
    children: Seq<RawChildModel>,
) -> Seq<PendingModel>
    decreases children.len(),
{
    if children.len() == 0 {
        Seq::empty()
    } else {
        subdirs_of(cfg, parent, depth, children.drop_last()) + (match spec_classify(
            cfg,
            parent,
            children.last(),
        ) {
            ClassifiedModel::Kept(e) => if e.file_type is Directory && should_enter(cfg, depth) {
                seq![PendingModel { path: e.path, depth: (depth + 1) as usize }]
            } else {
                Seq::empty()
            },
            _ => Seq::empty(),
        })
    }
}

/// The traversal order on entries: every directory comes before every
/// non-directory, and within each group names are compared
/// lexicographically.  Symbolic links and other kinds sort with the files.
pub open spec fn entry_le(a: EntryModel, b: EntryModel) -> bool {
    if (a.file_type is Directory) == (b.file_type is Directory) {
        crate::text::lex_le(a.name, b.name)
    } else {
        a.file_type is Directory
    }
}

/// `entry_le` is total.
pub proof fn lemma_entry_le_total(a: EntryModel, b: EntryModel)
    ensures
        entry_le(a, b) || entry_le(b, a),
{
    crate::text::lemma_lex_le_total(a.name, b.name);
}

/// `entry_le` is transitive.
pub proof fn lemma_entry_le_trans(a: EntryModel, b: EntryModel, c: EntryModel)
    requires
        entry_le(a, b),
        entry_le(b, c),
    ensures
        entry_le(a, c),
{
    if (a.file_type is Directory) == (b.file_type is Directory) && (b.file_type is Directory) == (
    c.file_type is Directory) {
        crate::text::lemma_lex_le_trans(a.name, b.name, c.name);
    }
}

/// The sequence is ordered by `entry_le`.
pub open spec fn entries_sorted(s: Seq<EntryModel>) -> bool {
    forall|i: int, j: int| 0 <= i < j < s.len() ==> #[trigger] entry_le(s[i], s[j])
}

/// The sort key of an entry: its group (directory or not) and its name.
/// Two entries compare equal under `entry_le` exactly when their keys are
/// equal.
pub open spec fn entry_key(e: EntryModel) -> (bool, Seq<char>) {
    (e.file_type is Directory, e.name)
}

/// The subsequence of entries whose sort key is `k`, in order.
pub open spec fn key_filter(s: Seq<EntryModel>, k: (bool, Seq<char>)) -> Seq<EntryModel>
    decreases s.len(),
{
    if s.len() == 0 {
        Seq::empty()
    } else {
        key_filter(s.drop_last(), k) + (if entry_key(s.last()) == k {
            seq![s.last()]
        } else {
            Seq::empty()
        })
    }
}

proof fn lemma_key_filter_add(a: Seq<EntryModel>, b: Seq<EntryModel>, k: (bool, Seq<char>))
    ensures
        key_filter(a + b, k) == key_filter(a, k) + key_filter(b, k),
    decreases b.len(),
{
    if b.len() == 0 {
        assert(a + b =~= a);
        assert(key_filter(a, k) + key_filter(b, k) =~= key_filter(a, k));
    } else {
        lemma_key_filter_add(a, b.drop_last(), k);
        assert((a + b).drop_last() =~= a + b.drop_last());
        assert((a + b).last() == b.last());
        if entry_key(b.last()) == k {
            assert(key_filter(a + b, k) =~= key_filter(a, k) + key_filter(b, k));
        } else {
            assert(key_filter(a + b, k) =~= key_filter(a, k) + key_filter(b, k));
        }
    }
}

proof fn lemma_key_filter_none(s: Seq<EntryModel>, k: (bool, Seq<char>))
    requires
        forall|i: int| 0 <= i < s.len() ==> entry_key(#[trigger] s[i]) != k,
    ensures
        key_filter(s, k) == Seq::<EntryModel>::empty(),
    decreases s.len(),
{
    if s.len() > 0 {
        lemma_key_filter_none(s.drop_last(), k);
        assert(key_filter(s, k) =~= Seq::<EntryModel>::empty());
    }
}

/// Key-equal entries are `entry_le` in both directions.
proof fn lemma_key_equal_le(a: EntryModel, b: EntryModel)
    requires
        entry_key(a) == entry_key(b),
    ensures
        entry_le(a, b),
        entry_le(b, a),
{
    crate::text::lemma_lex_le_refl(a.name);
    assert(a.name == b.name);
}

/// Decides `entry_le` on two entries.
fn entry_le_exec(a: &FileInfo, b: &FileInfo) -> (r: bool)
    ensures
        r == entry_le(a@, b@),
{
    let ad = matches!(a.file_type, FileType::Directory);
    let bd = matches!(b.file_type, FileType::Directory);
    if ad == bd {
        crate::text::str_le(a.name.as_str(), b.name.as_str())
    } else {
        ad
    }
}

/// Inserting `x` at the first position whose element is not `entry_le x`
/// keeps the sequence sorted.
proof fn lemma_sorted_insert(s: Seq<EntryModel>, x: EntryModel, p: int)
    requires
        entries_sorted(s),
        0 <= p <= s.len(),
        forall|q: int| 0 <= q < p ==> entry_le(#[trigger] s[q], x),
        p < s.len() ==> !entry_le(s[p], x),
    ensures
        entries_sorted(s.insert(p, x)),
{
    let t = s.insert(p, x);
    if p < s.len() {
        lemma_entry_le_total(s[p], x);
    }
    assert forall|i: int, j: int| 0 <= i < j < t.len() implies #[trigger] entry_le(t[i], t[j]) by {
        if i == p {
            // t[i] is x, t[j] is s[j - 1] with j - 1 >= p
            if j - 1 > p {
                lemma_entry_le_trans(x, s[p], s[j - 1]);
            }
        } else if j == p {
            // t[j] is x, t[i] is s[i] with i < p
        } else {
            let si: int = if i < p {
                i
            } else {
                i - 1
            };
            let sj: int = if j < p {
                j
            } else {
                j - 1
            };
            if si < sj {
            } else {
                assert(si == sj);
                if i < p && j > p {
                    // t[i] == t[j] == s[si]; need reflexivity
                    lemma_entry_le_total(s[si], s[si]);
                }
            }
        }
    }
}

/// Inserting an element anywhere adds it to the multiset of the sequence.
proof fn lemma_insert_to_multiset(s: Seq<EntryModel>, x: EntryModel, p: int)
    requires
        0 <= p <= s.len(),
    ensures
        s.insert(p, x).to_multiset() == s.to_multiset().insert(x),
{
    broadcast use vstd::seq_lib::group_to_multiset_ensures;

    let front = s.take(p);
    let back = s.skip(p);
    assert(s =~= front + back);
    assert(s.insert(p, x) =~= front.push(x) + back);
    vstd::seq_lib::lemma_multiset_commutative(front, back);
    vstd::seq_lib::lemma_multiset_commutative(front.push(x), back);
    assert(front.push(x).to_multiset() =~= front.to_multiset().insert(x));
    assert(s.insert(p, x).to_multiset() =~= s.to_multiset().insert(x));
}

/// Inserting `x` at the first position whose element is not `entry_le x`
/// keeps, for every sort key, the key's subsequence intact, with `x`
/// appended at the end of its own key's subsequence: the insertion is
/// stable.
proof fn lemma_stable_insert(s: Seq<EntryModel>, x: EntryModel, p: int)
    requires
        entries_sorted(s),
        0 <= p <= s.len(),
        forall|q: int| 0 <= q < p ==> entry_le(#[trigger] s[q], x),
        p < s.len() ==> !entry_le(s[p], x),
    ensures
        forall|k: (bool, Seq<char>)|
            #[trigger] key_filter(s.insert(p, x), k) == key_filter(s, k) + (if entry_key(x) == k {
                seq![x]
            } else {
                Seq::<EntryModel>::empty()
            }),
{
    let front = s.take(p);
    let back = s.skip(p);
    assert(s =~= front + back);
    assert(s.insert(p, x) =~= front + (seq![x] + back));
    // No element at or after the insertion point shares x's key: it would
    // be `entry_le x` by key equality, against the choice of the position.
    assert forall|q: int| 0 <= q < back.len() implies entry_key(#[trigger] back[q]) != entry_key(
        x,
    ) by {
        if entry_key(back[q]) == entry_key(x) {
            lemma_key_equal_le(back[q], x);
            assert(back[q] == s[p + q]);
            if q > 0 {
                lemma_entry_le_trans(s[p], s[p + q], x);
            }
            assert(false);
        }
    }
    assert forall|k: (bool, Seq<char>)|
        #[trigger] key_filter(s.insert(p, x), k) == key_filter(s, k) + (if entry_key(x) == k {
            seq![x]
        } else {
            Seq::<EntryModel>::empty()
        }) by {
        lemma_key_filter_add(front, back, k);
        lemma_key_filter_add(front, seq![x] + back, k);
        lemma_key_filter_add(seq![x], back, k);
        assert(seq![x].drop_last() =~= Seq::<EntryModel>::empty());
        assert(key_filter(Seq::<EntryModel>::empty(), k) =~= Seq::<EntryModel>::empty());
        assert(key_filter(seq![x], k) =~= (if entry_key(x) == k {
            seq![x]
        } else {
            Seq::<EntryModel>::empty()
        }));
        if entry_key(x) == k {
            lemma_key_filter_none(back, k);
            assert(key_filter(s.insert(p, x), k) =~= key_filter(s, k) + seq![x]);
        } else {
            assert(key_filter(s.insert(p, x), k) =~= key_filter(s, k));
            assert(key_filter(s, k) + Seq::<EntryModel>::empty() =~= key_filter(s, k));
        }
    }
}

/// Sorts entries into the traversal order: directories first, then
/// alphabetical by name within each group.  Sorting keeps exactly the same
/// entries (as a multiset), it is stable (for every sort key, the key's
/// entries keep their given order), and sorting an already-sorted sequence
/// returns it unchanged.
pub fn sort_entries(files: &Vec<FileInfo>) -> (r: Vec<FileInfo>)
    ensures
        entries_sorted(models(r@)),
        models(r@).to_multiset() == models(files@).to_multiset(),
        forall|k: (bool, Seq<char>)|
            #[trigger] key_filter(models(r@), k) == key_filter(models(files@), k),
        entries_sorted(models(files@)) ==> models(r@) == models(files@),
{
    broadcast use vstd::seq_lib::group_to_multiset_ensures;

    let ghost all = models(files@);
    let mut out: Vec<FileInfo> = Vec::new();
    proof {
        assert(models(files@.take(0)) =~= Seq::<EntryModel>::empty());
        assert(models(out@) =~= Seq::<EntryModel>::empty());
        assert(models(out@).to_multiset() =~= models(files@.take(0)).to_multiset());
    }
    let mut idx: usize = 0;
    while idx < files.len()
        invariant
            idx <= files.len(),
            all == models(files@),
            entries_sorted(models(out@)),
            models(out@).to_multiset() == models(files@.take(idx as int)).to_multiset(),
            forall|k: (bool, Seq<char>)|
                #[trigger] key_filter(models(out@), k) == key_filter(
                    models(files@.take(idx as int)),
                    k,
                ),
            out@.len() == idx,
            entries_sorted(all) ==> models(out@) == models(files@.take(idx as int)),
        decreases files.len() - idx,
    {
        let x = files[idx].duplicate();
        let ghost before = models(out@);
        let mut p: usize = 0;
        loop
            invariant
                p <= out.len(),
                models(out@) == before,
                forall|q: int| 0 <= q < p ==> entry_le(#[trigger] before[q], x@),
            ensures
                p <= out.len(),
                forall|q: int| 0 <= q < p ==> entry_le(#[trigger] before[q], x@),
                p < out.len() ==> !entry_le(before[p as int], x@),
                models(out@) == before,
            decreases out.len() - p,
        {
            if p == out.len() {
                break ;
            }
            if !entry_le_exec(&out[p], &x) {
                break ;
            }
            p = p + 1;
        }
        proof {
            lemma_sorted_insert(before, x@, p as int);
            lemma_insert_to_multiset(before, x@, p as int);
            assert(models(files@.take(idx + 1)) =~= models(files@.take(idx as int)).push(
                files@[idx as int]@,
            ));
            models(files@.take(idx as int)).to_multiset_ensures();
            assert(models(files@.take(idx as int)).push(x@).to_multiset() == models(
                files@.take(idx as int),
            ).to_multiset().insert(x@));
            assert(models(files@.take(idx + 1)).to_multiset() =~= models(
                files@.take(idx as int),
            ).to_multiset().insert(x@));
        }
        out.insert(p, x);
        proof {
            assert(models(out@) =~= before.insert(p as int, x@));
            lemma_stable_insert(before, x@, p as int);
            assert forall|k: (bool, Seq<char>)|
                #[trigger] key_filter(models(out@), k) == key_filter(
                    models(files@.take(idx + 1)),
                    k,
                ) by {
                assert(key_filter(before.insert(p as int, x@), k) == key_filter(before, k) + (
                if entry_key(x@) == k {
                    seq![x@]
                } else {
                    Seq::<EntryModel>::empty()
                }));
                lemma_key_filter_add(models(files@.take(idx as int)), seq![x@], k);
                assert(seq![x@].drop_last() =~= Seq::<EntryModel>::empty());
                assert(key_filter(Seq::<EntryModel>::empty(), k) =~= Seq::<EntryModel>::empty());
                assert(key_filter(seq![x@], k) =~= (if entry_key(x@) == k {
                    seq![x@]
                } else {
                    Seq::<EntryModel>::empty()
                }));
                assert(models(files@.take(idx + 1)) =~= models(files@.take(idx as int))
                    + seq![x@]);
                assert(key_filter(models(out@), k) =~= key_filter(
                    models(files@.take(idx + 1)),
                    k,
                ));
            }
            if entries_sorted(all) {
                // Every element already placed is `entry_le x`, so the
                // insertion happened at the end and kept the prefix intact.
                assert forall|q: int| 0 <= q < before.len() implies entry_le(
                    #[trigger] before[q],
                    x@,
                ) by {
                    assert(before[q] == models(files@.take(idx as int))[q]);
                    assert(models(files@.take(idx as int))[q] == all[q]);
                    assert(all[idx as int] == x@);
                    assert(entry_le(all[q], all[idx as int]));
                }
                assert(p as int == before.len());
                assert(models(out@) =~= before.push(x@));
                assert(models(out@) =~= models(files@.take(idx + 1)));
            }
        }
        idx = idx + 1;
    }
    proof {
        assert(files@.take(files@.len() as int) =~= files@);
    }
    out
}

/// One filter string hits an entry when it occurs in the name, equals the
/// extension, or occurs in the content type.
pub open spec fn filter_hit(e: EntryModel, f: Seq<char>) -> bool {
    contains_seq(e.name, f) || (e.extension matches Some(x) && x == f) || (
    e.mime_type matches Some(m) && contains_seq(m, f))
}

/// An entry is retained when any filter hits it.
pub open spec fn entry_matches(e: EntryModel, filters: Seq<Seq<char>>) -> bool {
    exists|i: int| 0 <= i < filters.len() && #[trigger] filter_hit(e, filters[i])
}

/// The subsequence of entries that some filter hits, in order.
pub open spec fn retained_of(filters: Seq<Seq<char>>, s: Seq<EntryModel>) -> Seq<EntryModel>
    decreases s.len(),
{
    if s.len() == 0 {
        Seq::empty()
    } else {
        retained_of(filters, s.drop_last()) + (if entry_matches(s.last(), filters) {
            seq![s.last()]
        } else {
            Seq::empty()
        })
    }
}

/// What the filter stage yields: everything when there are no filters,
/// otherwise the entries some filter hits.
pub open spec fn spec_apply_filters(filters: Seq<Seq<char>>, s: Seq<EntryModel>)
    -> Seq<EntryModel> {
    if filters.len() == 0 {
        s
    } else {
        retained_of(filters, s)
    }
}

/// How many entries of `s` have kind `k`.
pub open spec fn count_kind(s: Seq<EntryModel>, k: FileType) -> nat
    decreases s.len(),
{
    if s.len() == 0 {
        0
    } else {
        count_kind(s.drop_last(), k) + (if s.last().file_type == k {
            1nat
        } else {
            0nat
        })
    }
}

/// The byte total over the regular-file entries of `s`.
pub open spec fn sum_reg_sizes(s: Seq<EntryModel>) -> nat
    decreases s.len(),
{
    if s.len() == 0 {
        0
    } else {
        sum_reg_sizes(s.drop_last()) + (if s.last().file_type is RegularFile {
            s.last().size as nat
        } else {
            0nat
        })
    }
}

/// `n` clamped to the largest representable byte count.
pub open spec fn sat_u64(n: nat) -> u64 {
    if n <= u64::MAX {
        n as u64
    } else {
        u64::MAX
    }
}

/// The regular-file entry of `s` with the largest size, ties going to the
/// earliest such entry; `None` when `s` has no regular file.
pub open spec fn largest_reg(s: Seq<EntryModel>) -> Option<EntryModel>
    decreases s.len(),
{
    if s.len() == 0 {
        None
    } else {
        let prev = largest_reg(s.drop_last());
        if s.last().file_type is RegularFile {
            match prev {
                None => Some(s.last()),
                Some(p) => if s.last().size > p.size {
                    Some(s.last())
                } else {
                    Some(p)
                },
            }
        } else {
            prev
        }
    }
}

/// In any entry sequence, the regular files and the directories together
/// never outnumber the entries: every entry has exactly one kind, and
/// symbolic links and other kinds belong to neither count.
pub proof fn lemma_counts_bounded(s: Seq<EntryModel>)
    ensures
        count_kind(s, FileType::RegularFile) + count_kind(s, FileType::Directory) <= s.len(),
    decreases s.len(),
{
    if s.len() > 0 {
        lemma_counts_bounded(s.drop_last());
    }
}

/// Decides whether any of the filters hits `file`.
fn matches_any_filter(file: &FileInfo, filters: &Vec<String>) -> (r: bool)
    ensures
        r == entry_matches(file@, filters@.map_values(|f: String| f@)),
{
    let ghost fs = filters@.map_values(|f: String| f@);
    let mut i: usize = 0;
    while i < filters.len()
        invariant
            i <= filters.len(),
            fs == filters@.map_values(|f: String| f@),
            forall|j: int| 0 <= j < i ==> !#[trigger] filter_hit(file@, fs[j]),
        decreases filters.len() - i,
    {
        let f = &filters[i];
        let mut hit: bool = str_contains(file.name.as_str(), f.as_str());
        if !hit {
            if let Some(ext) = &file.extension {
                hit = str_eq(ext.as_str(), f.as_str());
            }
        }
        if !hit {
            if let Some(mime) = &file.mime_type {
                hit = str_contains(mime.as_str(), f.as_str());
            }
        }
        if hit {
            assert(filter_hit(file@, fs[i as int]));
            return true;
        }
        assert(!filter_hit(file@, fs[i as int]));
        i = i + 1;
    }
    false
}

/// With a depth bound of zero, a listing schedules no subdirectory at all,
/// whatever it contains: only the root's own children are ever reported.
pub proof fn lemma_depth_zero_no_subdirs(
    cfg: ConfigModel,
    parent: Seq<char>,
    depth: usize,
    cs: Seq<RawChildModel>,
)
    requires
        cfg.max_depth == Some(0usize),
    ensures
        subdirs_of(cfg, parent, depth, cs) == Seq::<PendingModel>::empty(),
    decreases cs.len(),
{
    if cs.len() == 0 {
    } else {
        lemma_depth_zero_no_subdirs(cfg, parent, depth, cs.drop_last());
        lemma_depth_zero_blocks_descent(cfg, depth);
        assert(subdirs_of(cfg, parent, depth, cs) =~= Seq::<PendingModel>::empty());
    }
}

/// A dotfile is governed by the hidden policy alone: with hidden names
/// excluded it is always skipped; a kept dotfile means hidden names were
/// included, and it carries the hidden mark; and with hidden names
/// included its fate is decided by the remaining rules exactly as for any
/// other name.
pub proof fn lemma_hidden_exclusion(cfg: ConfigModel, parent: Seq<char>, c: RawChildModel)
    requires
        is_hidden_name(c.name),
    ensures
        !cfg.include_hidden ==> spec_classify(cfg, parent, c) is Skipped,
        spec_classify(cfg, parent, c) matches ClassifiedModel::Kept(e) ==> cfg.include_hidden
            && e.is_hidden,
        cfg.include_hidden && (c.meta matches Ok(m) && kind_of(cfg, m) matches Some(k) && !(
        k is RegularFile && (cfg.size_limit matches Some(l) && m.size > l))) ==> spec_classify(
            cfg,
            parent,
            c,
        ) is Kept,
{
}

/// The main directory scanner, holding the configuration of its traversals.
pub struct DirectoryScanner {
    config: ScanConfig,
}

impl View for DirectoryScanner {
    type V = ConfigModel;

    closed spec fn view(&self) -> ConfigModel {
        self.config@
    }
}

impl DirectoryScanner {
    /// Creates a scanner with the given configuration.
    pub fn new(config: ScanConfig) -> (s: Self)
        ensures
            s@ == config@,
    {
        Self { config }
    }

    /// Looks a lowercase extension up in the content-type table.
    pub fn detect_mime_type(&self, extension: &Option<String>) -> (r: Option<String>)
        ensures
            opt_view(r) == (match opt_view(*extension) {
                Some(e) => mime_of(e),
                None => None::<Seq<char>>,
            }),
    {
        let ext = match extension {
            Some(e) => e,
            None => {
                return None;
            },
        };
        let e = ext.as_str();
        let r: &str = if str_eq(e, "ttf") {
            "font/ttf"
        } else if str_eq(e, "otf") {
            "font/otf"
        } else if str_eq(e, "woff") {
            "font/woff"
        } else if str_eq(e, "woff2") {
            "font/woff2"
        } else if str_eq(e, "eot") {
            "application/vnd.ms-fontobject"
        } else if str_eq(e, "jpg") {
            "image/jpeg"
        } else if str_eq(e, "jpeg") {
            "image/jpeg"
        } else if str_eq(e, "png") {
            "image/png"
        } else if str_eq(e, "gif") {
            "image/gif"
        } else if str_eq(e, "bmp") {
            "image/bmp"
        } else if str_eq(e, "webp") {
            "image/webp"
        } else if str_eq(e, "svg") {
            "image/svg+xml"
        } else if str_eq(e, "pdf") {
            "application/pdf"
        } else if str_eq(e, "doc") {
            "application/msword"
        } else if str_eq(e, "docx") {
            "application/vnd.openxmlformats-officedocument.wordprocessingml.document"
        } else if str_eq(e, "txt") {
            "text/plain"
        } else if str_eq(e, "json") {
            "application/json"
        } else if str_eq(e, "xml") {
            "application/xml"
        } else if str_eq(e, "mp3") {
            "audio/mpeg"
        } else if str_eq(e, "wav") {
            "audio/wav"
        } else if str_eq(e, "ogg") {
            "audio/ogg"
        } else if str_eq(e, "mp4") {
            "video/mp4"
        } else if str_eq(e, "avi") {
            "video/x-msvideo"
        } else if str_eq(e, "mov") {
            "video/quicktime"
        } else {
            return None;
        };
        Some(String::from_str(r))
    }

    /// Classifies one raw directory child of `parent`.
    pub fn process_entry(&self, parent: &str, child: &RawChild) -> (r: Classified)
        ensures
            r@ == spec_classify(self@, parent@, child@),
    {
        let name_len: usize = child.name.as_str().unicode_len();
        let hidden: bool = name_len > 0 && child.name.as_str().get_char(0) == '.';
        if hidden && !self.config.include_hidden {
            return Classified::Skipped;
        }
        let m: RawMeta = match &child.meta {
            Ok(m) => *m,
            Err(e) => {
                let path = join_path(parent, child.name.as_str());
                let mut msg = String::from_str("无法读取文件元数据 ");
                msg.append(path.as_str());
                msg.append(": ");
                msg.append(e.as_str());
                return Classified::Failed(msg);
            },
        };
        let kind: FileType = if m.is_dir {
            FileType::Directory
        } else if m.is_file {
            FileType::RegularFile
        } else if m.is_symlink {
            if !self.config.follow_symlinks {
                return Classified::Skipped;
            }
            FileType::SymbolicLink
        } else {
            FileType::Other
        };
        if matches!(kind, FileType::RegularFile) {
            if let Some(limit) = self.config.size_limit {
                if m.size > limit {
                    return Classified::Skipped;
                }
            }
        }
        let raw_ext = extension_of(child.name.as_str());
        let extension: Option<String> = match &raw_ext {
            Some(r) => Some(to_lowercase(r.as_str())),
            None => None,
        };
        let mime_type = self.detect_mime_type(&extension);
        let path = join_path(parent, child.name.as_str());
        Classified::Kept(
            FileInfo {
                name: child.name.clone(),
                path,
                file_type: kind,
                size: m.size,
                modified_time: m.modified,
                extension,
                mime_type,
                is_hidden: hidden,
            },
        )
    }

    /// Starts a traversal at `root`: the root itself is the one pending
    /// directory, and nothing has been classified yet.
    pub fn begin_walk(&self, root: &str) -> (st: WalkState)
        ensures
            st@.pending == seq![PendingModel { path: root@, depth: 0usize }],
            st@.entries == Seq::<EntryModel>::empty(),
            st@.errors == Seq::<Seq<char>>::empty(),
    {
        let mut pending: Vec<PendingDir> = Vec::new();
        pending.push(PendingDir { path: String::from_str(root), depth: 0 });
        let st = WalkState { pending, entries: Vec::new(), errors: Vec::new() };
        proof {
            assert(st@.pending =~= seq![PendingModel { path: root@, depth: 0usize }]);
            assert(st@.entries =~= Seq::<EntryModel>::empty());
            assert(st@.errors =~= Seq::<Seq<char>>::empty());
        }
        st
    }

    /// Consumes the listing of one popped directory: a listing failure is
    /// recorded as one error message; otherwise every child is classified in
    /// order, kept entries and failure messages are appended, and the kept
    /// subdirectories are scheduled (deepest last popped, so siblings are
    /// walked in order) when the depth budget admits entering them.
    pub fn process_listing(
        &self,
        st: &mut WalkState,
        dir: &PendingDir,
        listing: Result<Vec<RawChild>, String>,
    )
        requires
            dir.depth < usize::MAX,
        ensures
            (match listing {
                Err(e) => final(st)@.entries == old(st)@.entries && final(st)@.pending == old(
                    st,
                )@.pending && final(st)@.errors == old(st)@.errors.push(
                    read_error_msg(dir.path@, e@),
                ),
                Ok(children) => {
                    let cs = children@.map_values(|c: RawChild| c@);
                    final(st)@.entries == old(st)@.entries + kept_of(self@, dir.path@, cs)
                        && final(st)@.errors == old(st)@.errors + errors_of(self@, dir.path@, cs)
                        && final(st)@.pending == old(st)@.pending + subdirs_of(
                        self@,
                        dir.path@,
                        dir.depth,
                        cs,
                    ).reverse()
                },
            }),
    {
        let children: Vec<RawChild> = match listing {
            Ok(children) => children,
            Err(e) => {
                let mut msg = String::from_str("无法读取目录 ");
                msg.append(dir.path.as_str());
                msg.append(": ");
                msg.append(e.as_str());
                st.errors.push(msg);
                proof {
                    assert(final(st)@.errors =~= old(st)@.errors.push(
                        read_error_msg(dir.path@, e@),
                    ));
                    assert(final(st)@.entries =~= old(st)@.entries);
                    assert(final(st)@.pending =~= old(st)@.pending);
                }
                return ;
            },
        };
        let ghost cs = children@.map_values(|c: RawChild| c@);
        let mut subdirs: Vec<PendingDir> = Vec::new();
        let mut i: usize = 0;
        proof {
            assert(cs.take(0) =~= Seq::<RawChildModel>::empty());
            assert(st@.entries =~= old(st)@.entries + kept_of(self@, dir.path@, cs.take(0)));
            assert(st@.errors =~= old(st)@.errors + errors_of(self@, dir.path@, cs.take(0)));
            assert(subdirs@.map_values(|d: PendingDir| d@) =~= subdirs_of(
                self@,
                dir.path@,
                dir.depth,
                cs.take(0),
            ));
        }
        while i < children.len()
            invariant
                i <= children.len(),
                dir.depth < usize::MAX,
                cs == children@.map_values(|c: RawChild| c@),
                st@.entries == old(st)@.entries + kept_of(self@, dir.path@, cs.take(i as int)),
                st@.errors == old(st)@.errors + errors_of(self@, dir.path@, cs.take(i as int)),
                st@.pending == old(st)@.pending,
                subdirs@.map_values(|d: PendingDir| d@) == subdirs_of(
                    self@,
                    dir.path@,
                    dir.depth,
                    cs.take(i as int),
                ),
            decreases children.len() - i,
        {
            let ghost pre_entries = st@.entries;
            let ghost pre_errors = st@.errors;
            let ghost pre_subdirs = subdirs@.map_values(|d: PendingDir| d@);
            proof {
                assert(cs.take(i + 1).drop_last() =~= cs.take(i as int));
                assert(cs.take(i + 1).last() == cs[i as int]);
                assert(cs[i as int] == children@[i as int]@);
            }
            match self.process_entry(dir.path.as_str(), &children[i]) {
                Classified::Kept(entry) => {
                    if matches!(entry.file_type, FileType::Directory) && self.enter_allowed(
                        dir.depth,
                    ) {
                        subdirs.push(
                            PendingDir { path: entry.path.clone(), depth: dir.depth + 1 },
                        );
                        proof {
                            assert(subdirs@.map_values(|d: PendingDir| d@) =~= pre_subdirs.push(
                                PendingModel { path: entry.path@, depth: (dir.depth + 1) as usize },
                            ));
                        }
                    }
                    st.entries.push(entry);
                    proof {
                        assert(st@.entries =~= pre_entries.push(entry@));
                        assert(kept_of(self@, dir.path@, cs.take(i + 1)) =~= kept_of(
                            self@,
                            dir.path@,
                            cs.take(i as int),
                        ).push(entry@));
                        assert(st@.entries =~= old(st)@.entries + kept_of(
                            self@,
                            dir.path@,
                            cs.take(i + 1),
                        ));
                        assert(errors_of(self@, dir.path@, cs.take(i + 1)) =~= errors_of(
                            self@,
                            dir.path@,
                            cs.take(i as int),
                        ));
                        assert(subdirs_of(self@, dir.path@, dir.depth, cs.take(i + 1))
                            =~= subdirs@.map_values(|d: PendingDir| d@));
                    }
                },
                Classified::Skipped => {
                    proof {
                        assert(kept_of(self@, dir.path@, cs.take(i + 1)) =~= kept_of(
                            self@,
                            dir.path@,
                            cs.take(i as int),
                        ));
                        assert(errors_of(self@, dir.path@, cs.take(i + 1)) =~= errors_of(
                            self@,
                            dir.path@,
                            cs.take(i as int),
                        ));
                        assert(subdirs_of(self@, dir.path@, dir.depth, cs.take(i + 1))
                            =~= pre_subdirs);
                    }
                },
                Classified::Failed(msg) => {
                    st.errors.push(msg);
                    proof {
                        assert(st@.errors =~= pre_errors.push(msg@));
                        assert(errors_of(self@, dir.path@, cs.take(i + 1)) =~= errors_of(
                            self@,
                            dir.path@,
                            cs.take(i as int),
                        ).push(msg@));
                        assert(st@.errors =~= old(st)@.errors + errors_of(
                            self@,
                            dir.path@,
                            cs.take(i + 1),
                        ));
                        assert(kept_of(self@, dir.path@, cs.take(i + 1)) =~= kept_of(
                            self@,
                            dir.path@,
                            cs.take(i as int),
                        ));
                        assert(subdirs_of(self@, dir.path@, dir.depth, cs.take(i + 1))
                            =~= pre_subdirs);
                    }
                },
            }
            i = i + 1;
        }
        proof {
            assert(cs.take(children@.len() as int) =~= cs);
        }
        // Push the scheduled subdirectories in reverse, so that the pending
        // stack pops siblings in their listed order.
        let ghost all_subdirs = subdirs_of(self@, dir.path@, dir.depth, cs);
        let mut k: usize = subdirs.len();
        proof {
            assert(all_subdirs.skip(k as int).reverse() =~= Seq::<PendingModel>::empty());
            assert(st@.pending =~= old(st)@.pending + all_subdirs.skip(k as int).reverse());
        }
        while k > 0
            invariant
                k <= subdirs@.len(),
                subdirs@.map_values(|d: PendingDir| d@) == all_subdirs,
                st@.pending == old(st)@.pending + all_subdirs.skip(k as int).reverse(),
                st@.entries == old(st)@.entries + kept_of(self@, dir.path@, cs),
                st@.errors == old(st)@.errors + errors_of(self@, dir.path@, cs),
            decreases k,
        {
            let ghost pre_pending = st@.pending;
            k = k - 1;
            let d = PendingDir { path: subdirs[k].path.clone(), depth: subdirs[k].depth };
            st.pending.push(d);
            proof {
                assert(st@.pending =~= pre_pending.push(all_subdirs[k as int]));
                assert(all_subdirs.skip(k as int).reverse() =~= all_subdirs.skip(
                    k + 1,
                ).reverse().push(all_subdirs[k as int]));
                assert(st@.pending =~= old(st)@.pending + all_subdirs.skip(k as int).reverse());
            }
        }
        proof {
            assert(all_subdirs.skip(0).reverse() =~= all_subdirs.reverse());
        }
    }

    /// Retains the entries that pass this scanner's filter set: everything
    /// when the set is empty, otherwise the entries some filter hits.
    pub fn apply_filters(&self, files: Vec<FileInfo>) -> (r: Vec<FileInfo>)
        ensures
            models(r@) == spec_apply_filters(self@.file_filters, models(files@)),
    {
        if self.config.file_filters.is_empty() {
            return files;
        }
        let ghost fs = self@.file_filters;
        let ghost ms = models(files@);
        let mut out: Vec<FileInfo> = Vec::new();
        proof {
            assert(ms.take(0) =~= Seq::<EntryModel>::empty());
            assert(models(out@) =~= retained_of(fs, ms.take(0)));
        }
        let mut i: usize = 0;
        while i < files.len()
            invariant
                i <= files.len(),
                fs == self@.file_filters,
                ms == models(files@),
                models(out@) == retained_of(fs, ms.take(i as int)),
            decreases files.len() - i,
        {
            let ghost pre = models(out@);
            proof {
                assert(ms.take(i + 1).drop_last() =~= ms.take(i as int));
                assert(ms.take(i + 1).last() == ms[i as int]);
                assert(ms[i as int] == files@[i as int]@);
            }
            if matches_any_filter(&files[i], &self.config.file_filters) {
                out.push(files[i].duplicate());
                proof {
                    assert(models(out@) =~= pre.push(ms[i as int]));
                    assert(retained_of(fs, ms.take(i + 1)) =~= pre.push(ms[i as int]));
                }
            } else {
                proof {
                    assert(retained_of(fs, ms.take(i + 1)) =~= pre);
                }
            }
            i = i + 1;
        }
        proof {
            assert(ms.take(files@.len() as int) =~= ms);
        }
        out
    }

    /// Reduces classified entries to summary statistics: counts by kind, the
    /// byte total over regular files (saturating at the largest
    /// representable count), and the largest regular file, ties going to the
    /// earliest entry.
    pub fn calculate_stats(&self, files: &Vec<FileInfo>, elapsed_ms: u64, errors_count: usize)
        -> (r: ScanStats)
        ensures
            r.total_files as nat == count_kind(models(files@), FileType::RegularFile),
            r.total_directories as nat == count_kind(models(files@), FileType::Directory),
            r.total_size == sat_u64(sum_reg_sizes(models(files@))),
            r@.largest_file == largest_reg(models(files@)),
            r.scan_duration_ms == elapsed_ms,
            r.errors_count == errors_count,
    {
        let ghost ms = models(files@);
        let mut file_count: usize = 0;
        let mut dir_count: usize = 0;
        let mut total: u64 = 0;
        let mut best: Option<usize> = None;
        proof {
            assert(ms.take(0) =~= Seq::<EntryModel>::empty());
        }
        let mut i: usize = 0;
        while i < files.len()
            invariant
                i <= files.len(),
                ms == models(files@),
                file_count <= i,
                dir_count <= i,
                file_count as nat == count_kind(ms.take(i as int), FileType::RegularFile),
                dir_count as nat == count_kind(ms.take(i as int), FileType::Directory),
                total == sat_u64(sum_reg_sizes(ms.take(i as int))),
                (match best {
                    None => largest_reg(ms.take(i as int)) is None,
                    Some(b) => b < i && largest_reg(ms.take(i as int)) == Some(ms[b as int]),
                }),
            decreases files.len() - i,
        {
            proof {
                assert(ms.take(i + 1).drop_last() =~= ms.take(i as int));
                assert(ms.take(i + 1).last() == ms[i as int]);
                assert(ms[i as int] == files@[i as int]@);
            }
            if matches!(files[i].file_type, FileType::RegularFile) {
                file_count = file_count + 1;
                let sz = files[i].size;
                if total > u64::MAX - sz {
                    total = u64::MAX;
                } else {
                    total = total + sz;
                }
                best = match best {
                    None => Some(i),
                    Some(b) => if files[i].size > files[b].size {
                        Some(i)
                    } else {
                        Some(b)
                    },
                };
            } else if matches!(files[i].file_type, FileType::Directory) {
                dir_count = dir_count + 1;
            }
            i = i + 1;
        }
        proof {
            assert(ms.take(files@.len() as int) =~= ms);
        }
        let largest_file: Option<FileInfo> = match best {
            None => None,
            Some(b) => Some(files[b].duplicate()),
        };
        ScanStats {
            total_files: file_count,
            total_directories: dir_count,
            total_size: total,
            largest_file,
            scan_duration_ms: elapsed_ms,
            errors_count,
        }
    }

    /// The statistics of a traversal that classified nothing.
    pub fn create_empty_stats(&self, elapsed_ms: u64) -> (r: ScanStats)
        ensures
            r.total_files == 0,
            r.total_directories == 0,
            r.total_size == 0,
            r.largest_file is None,
            r.scan_duration_ms == elapsed_ms,
            r.errors_count == 0,
    {
        ScanStats {
            total_files: 0,
            total_directories: 0,
            total_size: 0,
            largest_file: None,
            scan_duration_ms: elapsed_ms,
            errors_count: 0,
        }
    }

    /// Assembles the outcome of a finished traversal: the walked entries are
    /// filtered, sorted into the traversal order, and reduced to statistics,
    /// and the recorded error messages are carried over.
    pub fn scan(&self, root_path: String, walked: WalkState, elapsed_ms: u64) -> (r: ScanResult)
        ensures
            r.root_path@ == root_path@,
            r.errors@.map_values(|e: String| e@) == walked@.errors,
            entries_sorted(models(r.files@)),
            models(r.files@).to_multiset() == spec_apply_filters(
                self@.file_filters,
                walked@.entries,
            ).to_multiset(),
            forall|k: (bool, Seq<char>)|
                #[trigger] key_filter(models(r.files@), k) == key_filter(
                    spec_apply_filters(self@.file_filters, walked@.entries),
                    k,
                ),
            entries_sorted(spec_apply_filters(self@.file_filters, walked@.entries)) ==> models(
                r.files@,
            ) == spec_apply_filters(self@.file_filters, walked@.entries),
            r.stats.total_files as nat == count_kind(models(r.files@), FileType::RegularFile),
            r.stats.total_directories as nat == count_kind(models(r.files@), FileType::Directory),
            r.stats.total_size == sat_u64(sum_reg_sizes(models(r.files@))),
            r.stats@.largest_file == largest_reg(models(r.files@)),
            r.stats.scan_duration_ms == elapsed_ms,
            r.stats.errors_count == walked@.errors.len(),
    {
        let errors_count: usize = walked.errors.len();
        let filtered = self.apply_filters(walked.entries);
        let files = sort_entries(&filtered);
        let stats = self.calculate_stats(&files, elapsed_ms, errors_count);
        ScanResult { root_path, files, stats, errors: walked.errors }
    }

    /// The outcome of a traversal whose precondition failed: no entries, the
    /// one descriptive message, and empty statistics.
    pub fn scan_failed(&self, root_path: String, error: String, elapsed_ms: u64)
        -> (r: ScanResult)
        ensures
            r.root_path@ == root_path@,
            models(r.files@) == Seq::<EntryModel>::empty(),
            r.errors@.map_values(|e: String| e@) == seq![error@],
            r.stats.total_files == 0,
            r.stats.total_directories == 0,
            r.stats.total_size == 0,
            r.stats.largest_file is None,
            r.stats.scan_duration_ms == elapsed_ms,
            r.stats.errors_count == 0,
    {
        let stats = self.create_empty_stats(elapsed_ms);
        let mut errors: Vec<String> = Vec::new();
        errors.push(error);
        let r = ScanResult { root_path, files: Vec::new(), stats, errors };
        proof {
            assert(models(r.files@) =~= Seq::<EntryModel>::empty());
            assert(r.errors@.map_values(|e: String| e@) =~= seq![error@]);
        }
        r
    }

    /// Whether a directory whose children sit at `child_depth` may be
    /// entered under this scanner's configuration.
    fn enter_allowed(&self, child_depth: usize) -> (r: bool)
        ensures
            r == should_enter(self@, child_depth),
    {
        if !self.config.recursive {
            return false;
        }
        match self.config.max_depth {
            None => true,
            Some(d) => child_depth < d,
        }
    }
}

/// Renders a byte count for display, scaling up to terabytes.
pub fn format_file_size(size: u64) -> (r: String)
    ensures
        r@ == size_str(size, 4),
{
    format_size(size, 4)
}

/// The icon shown for an entry: by kind, and for regular files by
/// extension.
pub open spec fn entry_icon(e: EntryModel) -> Seq<char> {
    match e.file_type {
        FileType::Directory => "📁"@,
        FileType::RegularFile => match e.extension {
            Some(x) => if x == "ttf"@ || x == "otf"@ || x == "woff"@ || x == "woff2"@ {
                "🔤"@
            } else if x == "jpg"@ || x == "jpeg"@ || x == "png"@ || x == "gif"@ || x == "bmp"@ {
                "🖼️"@
            } else if x == "pdf"@ {
                "📄"@
            } else if x == "txt"@ {
                "📝"@
            } else if x == "mp3"@ || x == "wav"@ || x == "ogg"@ {
                "🎵"@
            } else if x == "mp4"@ || x == "avi"@ || x == "mov"@ {
                "🎬"@
            } else {
                "📄"@
            },
            None => "📄"@,
        },
        FileType::SymbolicLink => "🔗"@,
        FileType::Other => "❓"@,
    }
}

/// The size column of an entry: a placeholder for directories, the rendered
/// byte count otherwise.
pub open spec fn entry_size_text(e: EntryModel) -> Seq<char> {
    if e.file_type is Directory {
        "[目录]"@
    } else {
        size_str(e.size, 4)
    }
}

/// One line of the entry listing.
pub open spec fn entry_line(e: EntryModel) -> Seq<char> {
    entry_icon(e) + " "@ + e.name + " -> "@ + entry_size_text(e) + (match e.mime_type {
        Some(m) => " ("@ + m + ")"@,
        None => Seq::empty(),
    }) + "\n"@
}

/// The entry listing, line by line.
pub open spec fn entry_lines(s: Seq<EntryModel>) -> Seq<char>
    decreases s.len(),
{
    if s.len() == 0 {
        Seq::empty()
    } else {
        entry_lines(s.drop_last()) + entry_line(s.last())
    }
}

/// The error listing, one bulleted line per message.
pub open spec fn error_lines(errors: Seq<Seq<char>>) -> Seq<char>
    decreases errors.len(),
{
    if errors.len() == 0 {
        Seq::empty()
    } else {
        error_lines(errors.drop_last()) + "   • "@ + errors.last() + "\n"@
    }
}

/// The whole human-readable report of a traversal outcome.
pub open spec fn scan_report(r: ResultModel) -> Seq<char> {
    "📁 扫描目录: "@ + r.root_path + "\n"@ + "⏱️  扫描耗时: "@ + dec_str(
        r.stats.scan_duration_ms as nat,
    ) + " ms\n"@ + "📊 统计信息:\n"@ + "   • 文件总数: "@ + dec_str(r.stats.total_files as nat)
        + "\n"@ + "   • 目录总数: "@ + dec_str(r.stats.total_directories as nat) + "\n"@
        + "   • 总大小: "@ + size_str(r.stats.total_size, 4) + "\n"@ + (match r.stats.largest_file {
        Some(l) => "   • 最大文件: "@ + l.name + " ("@ + size_str(l.size, 4) + ")\n"@,
        None => Seq::empty(),
    }) + (if r.stats.errors_count > 0 {
        "⚠️  错误数量: "@ + dec_str(r.stats.errors_count as nat) + "\n"@
    } else {
        Seq::empty()
    }) + "\n📋 文件列表:\n"@ + entry_lines(r.files) + (if r.errors.len() > 0 {
        "\n❌ 错误信息:\n"@ + error_lines(r.errors)
    } else {
        Seq::empty()
    })
}

/// Renders the icon of one entry.
fn entry_icon_exec(file: &FileInfo) -> (r: &'static str)
    ensures
        r@ == entry_icon(file@),
{
    match file.file_type {
        FileType::Directory => "📁",
        FileType::RegularFile => match &file.extension {
            Some(x) => {
                let e = x.as_str();
                if str_eq(e, "ttf") || str_eq(e, "otf") || str_eq(e, "woff") || str_eq(
                    e,
                    "woff2",
                ) {
                    "🔤"
                } else if str_eq(e, "jpg") || str_eq(e, "jpeg") || str_eq(e, "png") || str_eq(
                    e,
                    "gif",
                ) || str_eq(e, "bmp") {
                    "🖼️"
                } else if str_eq(e, "pdf") {
                    "📄"
                } else if str_eq(e, "txt") {
                    "📝"
                } else if str_eq(e, "mp3") || str_eq(e, "wav") || str_eq(e, "ogg") {
                    "🎵"
                } else if str_eq(e, "mp4") || str_eq(e, "avi") || str_eq(e, "mov") {
                    "🎬"
                } else {
                    "📄"
                }
            },
            None => "📄",
        },
        FileType::SymbolicLink => "🔗",
        FileType::Other => "❓",
    }
}

/// Renders one line of the entry listing.
fn entry_line_exec(file: &FileInfo) -> (r: String)
    ensures
        r@ == entry_line(file@),
{
    let mut line = String::from_str(entry_icon_exec(file));
    line.append(" ");
    line.append(file.name.as_str());
    line.append(" -> ");
    if matches!(file.file_type, FileType::Directory) {
        line.append("[目录]");
    } else {
        let sz = format_file_size(file.size);
        line.append(sz.as_str());
    }
    if let Some(m) = &file.mime_type {
        line.append(" (");
        line.append(m.as_str());
        line.append(")");
    }
    line.append("\n");
    proof {
        assert(line@ =~= entry_line(file@));
    }
    line
}

/// Renders a traversal outcome as the human-readable report.
#[verifier::rlimit(60)]
pub fn format_scan_result(result: &ScanResult) -> (r: String)
    ensures
        r@ == scan_report(result@),
{
    let mut out = String::from_str("📁 扫描目录: ");
    out.append(result.root_path.as_str());
    out.append("\n");
    out.append("⏱️  扫描耗时: ");
    let dur = u64_to_string(result.stats.scan_duration_ms);
    out.append(dur.as_str());
    out.append(" ms\n");
    out.append("📊 统计信息:\n");
    out.append("   • 文件总数: ");
    let tf = u64_to_string(result.stats.total_files as u64);
    out.append(tf.as_str());
    out.append("\n");
    out.append("   • 目录总数: ");
    let td = u64_to_string(result.stats.total_directories as u64);
    out.append(td.as_str());
    out.append("\n");
    out.append("   • 总大小: ");
    let ts = format_file_size(result.stats.total_size);
    out.append(ts.as_str());
    out.append("\n");
    if let Some(l) = &result.stats.largest_file {
        out.append("   • 最大文件: ");
        out.append(l.name.as_str());
        out.append(" (");
        let ls = format_file_size(l.size);
        out.append(ls.as_str());
        out.append(")\n");
    }
    if result.stats.errors_count > 0 {
        out.append("⚠️  错误数量: ");
        let ec = u64_to_string(result.stats.errors_count as u64);
        out.append(ec.as_str());
        out.append("\n");
    }
    out.append("\n📋 文件列表:\n");
    let ghost head = out@;
    proof {
        assert(models(result.files@).take(0) =~= Seq::<EntryModel>::empty());
        assert(out@ =~= head + entry_lines(models(result.files@).take(0)));
    }
    let mut i: usize = 0;
    while i < result.files.len()
        invariant
            i <= result.files.len(),
            out@ == head + entry_lines(models(result.files@).take(i as int)),
        decreases result.files.len() - i,
    {
        let ghost ms = models(result.files@);
        let line = entry_line_exec(&result.files[i]);
        out.append(line.as_str());
        proof {
            assert(ms.take(i + 1).drop_last() =~= ms.take(i as int));
            assert(ms.take(i + 1).last() == ms[i as int]);
            assert(ms[i as int] == result.files@[i as int]@);
            assert(out@ =~= head + entry_lines(ms.take(i + 1)));
        }
        i = i + 1;
    }
    proof {
        assert(models(result.files@).take(result.files@.len() as int) =~= models(result.files@));
    }
    if result.errors.len() > 0 {
        out.append("\n❌ 错误信息:\n");
        let ghost head2 = out@;
        let ghost es = result.errors@.map_values(|e: String| e@);
        proof {
            assert(es.take(0) =~= Seq::<Seq<char>>::empty());
            assert(out@ =~= head2 + error_lines(es.take(0)));
        }
        let mut k: usize = 0;
        while k < result.errors.len()
            invariant
                k <= result.errors.len(),
                es == result.errors@.map_values(|e: String| e@),
                out@ == head2 + error_lines(es.take(k as int)),
            decreases result.errors.len() - k,
        {
            out.append("   • ");
            out.append(result.errors[k].as_str());
            out.append("\n");
            proof {
                assert(es.take(k + 1).drop_last() =~= es.take(k as int));
                assert(es.take(k + 1).last() == es[k as int]);
                assert(es[k as int] == result.errors@[k as int]@);
                assert(out@ =~= head2 + error_lines(es.take(k + 1)));
            }
            k = k + 1;
        }
        proof {
            assert(es.take(result.errors@.len() as int) =~= es);
            assert(out@ =~= scan_report(result@));
        }
    } else {
        proof {
            assert(out@ =~= scan_report(result@));
        }
    }
    out
}

} // verus!
