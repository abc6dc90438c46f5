//! Simplified font-file discovery: a depth-capped walk that keeps regular
//! files only, the canonical font-extension allowlist, and the listing
//! report used by callers across the boundary.
//!
//! Directory listing is input/output and happens outside this crate: a
//! caller pops pending directories from a [`FontWalk`] and hands each
//! listing to [`DirectoryScanner::scan_step`].

use vstd::prelude::*;

use crate::text::{
    dec_str, ext_of, extension_of, format_size, join_path, lex_le, lower_of, size_str, str_eq,
    to_lowercase, to_uppercase, u64_to_string, upper_of,
};
use crate::{is_hidden_name, opt_view, sat_u64, PendingDir, PendingModel, RawChild, RawChildModel};

verus! {

/// The kind of a discovered object: this walk tells directories and regular
/// files apart and drops everything else.
#[derive(Debug, Clone, Copy, PartialEq, Eq, Structural)]
pub enum FileType {
    Directory,
    RegularFile,
}

/// One discovered file with the little metadata this walk keeps.
#[derive(Debug, Clone)]
pub struct FileInfo {
    pub name: String,
    pub path: String,
    pub file_type: FileType,
    pub size: u64,
    pub extension: Option<String>,
}

/// The mathematical model of a [`FileInfo`].
pub struct SimpleModel {
    pub name: Seq<char>,
    pub path: Seq<char>,
    pub file_type: FileType,
    pub size: u64,
    pub extension: Option<Seq<char>>,
}

impl View for FileInfo {
    type V = SimpleModel;

    open spec fn view(&self) -> SimpleModel {
        SimpleModel {
            name: self.name@,
            path: self.path@,
            file_type: self.file_type,
            size: self.size,
            extension: opt_view(self.extension),
        }
    }
}

/// The models of a sequence of discovered files.
pub open spec fn simple_models(s: Seq<FileInfo>) -> Seq<SimpleModel> {
    s.map_values(|f: FileInfo| f@)
}

impl FileInfo {
    /// A copy of this file record with the same model.
    pub fn duplicate(&self) -> (r: FileInfo)
        ensures
            r@ == self@,
    {
        FileInfo {
            name: self.name.clone(),
            path: self.path.clone(),
            file_type: self.file_type,
            size: self.size,
            extension: crate::clone_opt_string(&self.extension),
        }
    }
}

/// Files larger than this are left out of the discovery.
pub const MAX_SCAN_FILE_SIZE: u64 = 52428800;

/// Directories whose children would sit deeper than this are not entered.
pub const MAX_SCAN_DEPTH: usize = 4;

/// The canonical font-extension allowlist (lowercase).
pub open spec fn is_font_ext(x: Seq<char>) -> bool {
    x == "ttf"@ || x == "otf"@ || x == "ttc"@ || x == "otc"@ || x == "woff"@ || x == "woff2"@
        || x == "eot"@
}

/// What the discovery walk decides for one raw child.
pub enum ScanOutcome {
    File(SimpleModel),
    Dir(Seq<char>),
    Skip,
}

/// The decision for one raw child of `parent`: hidden names and unreadable
/// metadata are dropped, directories are remembered for descent, regular
/// files within the size ceiling are kept with their lowercased extension,
/// and anything else is dropped.  The size ceiling applies to directories
/// too: an over-sized one is neither kept nor entered.
pub open spec fn spec_scan_child(parent: Seq<char>, c: RawChildModel) -> ScanOutcome {
    if is_hidden_name(c.name) {
        ScanOutcome::Skip
    } else {
        match c.meta {
            Err(_) => ScanOutcome::Skip,
            Ok(m) => if !m.is_dir && !m.is_file {
                ScanOutcome::Skip
            } else if m.size > MAX_SCAN_FILE_SIZE {
                ScanOutcome::Skip
            } else if m.is_dir {
                ScanOutcome::Dir(parent + "/"@ + c.name)
            } else {
                ScanOutcome::File(
                    SimpleModel {
                        name: c.name,
                        path: parent + "/"@ + c.name,
                        file_type: FileType::RegularFile,
                        size: m.size,
                        extension: match ext_of(c.name) {
                            Some(raw) => Some(lower_of(raw)),
                            None => None,
                        },
                    },
                )
            },
        }
    }
}

/// The files that one listing keeps, in order.
pub open spec fn files_of(parent: Seq<char>, cs: Seq<RawChildModel>) -> Seq<SimpleModel>
    decreases cs.len(),
{
    if cs.len() == 0 {
        Seq::empty()
    } else {
        files_of(parent, cs.drop_last()) + (match spec_scan_child(parent, cs.last()) {
            ScanOutcome::File(f) => seq![f],
            _ => Seq::empty(),
        })
    }
}

/// The directories that one listing at child depth `depth` schedules, in
/// order; none when the depth cap is reached.
pub open spec fn dirs_of(parent: Seq<char>, depth: usize, cs: Seq<RawChildModel>)
    -> Seq<PendingModel>
    decreases cs.len(),
{
    if cs.len() == 0 {
        Seq::empty()
    } else {
        dirs_of(parent, depth, cs.drop_last()) + (match spec_scan_child(parent, cs.last()) {
            ScanOutcome::Dir(p) => if depth < MAX_SCAN_DEPTH {
                seq![PendingModel { path: p, depth: (depth + 1) as usize }]
            } else {
                Seq::empty()
            },
            _ => Seq::empty(),
        })
    }
}

/// The state of one discovery walk: directories still to list, and the
/// files found so far.
#[derive(Debug)]
pub struct FontWalk {
    pub pending: Vec<PendingDir>,
    pub files: Vec<FileInfo>,
}

/// The mathematical model of a [`FontWalk`].
pub struct FontWalkModel {
    pub pending: Seq<PendingModel>,
    pub files: Seq<SimpleModel>,
}

impl View for FontWalk {
    type V = FontWalkModel;

    open spec fn view(&self) -> FontWalkModel {
        FontWalkModel {
            pending: self.pending@.map_values(|d: PendingDir| d@),
            files: simple_models(self.files@),
        }
    }
}

impl FontWalk {
    /// Takes the next directory to list, if any.
    pub fn pop_pending(&mut self) -> (r: Option<PendingDir>)
        ensures
            old(self)@.pending.len() == 0 ==> r is None && final(self)@ == old(self)@,
            old(self)@.pending.len() > 0 ==> (r matches Some(d) && d@ == old(self)@.pending.last()
                && final(self)@.pending == old(self)@.pending.drop_last()
                && final(self)@.files == old(self)@.files),
    {
        let r = self.pending.pop();
        proof {
            if old(self)@.pending.len() == 0 {
                assert(final(self)@.pending =~= old(self)@.pending);
            } else {
                assert(final(self)@.pending =~= old(self)@.pending.drop_last());
            }
        }
        r
    }
}

/// The simplified scanner driving font-file discovery.
pub struct DirectoryScanner;

impl DirectoryScanner {
    /// Starts a discovery walk at `root`.
    pub fn begin_font_walk(root: &str) -> (w: FontWalk)
        ensures
            w@.pending == seq![PendingModel { path: root@, depth: 0usize }],
            w@.files == Seq::<SimpleModel>::empty(),
    {
        let mut pending: Vec<PendingDir> = Vec::new();
        pending.push(PendingDir { path: String::from_str(root), depth: 0 });
        let w = FontWalk { pending, files: Vec::new() };
        proof {
            assert(w@.pending =~= seq![PendingModel { path: root@, depth: 0usize }]);
            assert(w@.files =~= Seq::<SimpleModel>::empty());
        }
        w
    }

    /// Consumes the listing of one popped directory.  A listing failure is
    /// dropped silently; otherwise the kept files are appended and the
    /// subdirectories within the depth cap are scheduled.
    pub fn scan_step(
        w: &mut FontWalk,
        dir: &PendingDir,
        listing: Result<Vec<RawChild>, String>,
    )
        ensures
            (match listing {
                Err(_) => final(w)@ == old(w)@,
                Ok(children) => {
                    let cs = children@.map_values(|c: RawChild| c@);
                    final(w)@.files == old(w)@.files + files_of(dir.path@, cs)
                        && final(w)@.pending == old(w)@.pending + dirs_of(
                        dir.path@,
                        dir.depth,
                        cs,
                    )
                },
            }),
    {
        let children: Vec<RawChild> = match listing {
            Ok(children) => children,
            Err(_) => {
                return ;
            },
        };
        let ghost cs = children@.map_values(|c: RawChild| c@);
        let mut i: usize = 0;
        proof {
            assert(cs.take(0) =~= Seq::<RawChildModel>::empty());
            assert(w@.files =~= old(w)@.files + files_of(dir.path@, cs.take(0)));
            assert(w@.pending =~= old(w)@.pending + dirs_of(dir.path@, dir.depth, cs.take(0)));
        }
        while i < children.len()
            invariant
                i <= children.len(),
                cs == children@.map_values(|c: RawChild| c@),
                w@.files == old(w)@.files + files_of(dir.path@, cs.take(i as int)),
                w@.pending == old(w)@.pending + dirs_of(dir.path@, dir.depth, cs.take(i as int)),
            decreases children.len() - i,
        {
            let ghost pre_files = w@.files;
            let ghost pre_pending = w@.pending;
            proof {
                assert(cs.take(i + 1).drop_last() =~= cs.take(i as int));
                assert(cs.take(i + 1).last() == cs[i as int]);
                assert(cs[i as int] == children@[i as int]@);
            }
            let c = &children[i];
            let name_len: usize = c.name.as_str().unicode_len();
            let hidden: bool = name_len > 0 && c.name.as_str().get_char(0) == '.';
            if !hidden {
                if let Ok(m) = &c.meta {
                    if (m.is_dir || m.is_file) && m.size <= MAX_SCAN_FILE_SIZE {
                        if m.is_dir {
                            if dir.depth < MAX_SCAN_DEPTH {
                                let p = join_path(dir.path.as_str(), c.name.as_str());
                                w.pending.push(PendingDir { path: p, depth: dir.depth + 1 });
                                proof {
                                    assert(w@.pending =~= pre_pending.push(
                                        PendingModel {
                                            path: dir.path@ + "/"@ + c.name@,
                                            depth: (dir.depth + 1) as usize,
                                        },
                                    ));
                                }
                            }
                        } else {
                            let raw_ext = extension_of(c.name.as_str());
                            let extension: Option<String> = match &raw_ext {
                                Some(r) => Some(to_lowercase(r.as_str())),
                                None => None,
                            };
                            let f = FileInfo {
                                name: c.name.clone(),
                                path: join_path(dir.path.as_str(), c.name.as_str()),
                                file_type: FileType::RegularFile,
                                size: m.size,
                                extension,
                            };
                            w.files.push(f);
                            proof {
                                assert(w@.files =~= pre_files.push(
                                    (match spec_scan_child(dir.path@, cs[i as int]) {
                                        ScanOutcome::File(f) => f,
                                        _ => arbitrary(),
                                    }),
                                ));
                            }
                        }
                    }
                }
            }
            proof {
                assert(files_of(dir.path@, cs.take(i + 1)) =~= (match spec_scan_child(
                    dir.path@,
                    cs[i as int],
                ) {
                    ScanOutcome::File(f) => files_of(dir.path@, cs.take(i as int)).push(f),
                    _ => files_of(dir.path@, cs.take(i as int)),
                }));
                assert(dirs_of(dir.path@, dir.depth, cs.take(i + 1)) =~= (match spec_scan_child(
                    dir.path@,
                    cs[i as int],
                ) {
                    ScanOutcome::Dir(p) => if dir.depth < MAX_SCAN_DEPTH {
                        dirs_of(dir.path@, dir.depth, cs.take(i as int)).push(
                            PendingModel { path: p, depth: (dir.depth + 1) as usize },
                        )
                    } else {
                        dirs_of(dir.path@, dir.depth, cs.take(i as int))
                    },
                    _ => dirs_of(dir.path@, dir.depth, cs.take(i as int)),
                }));
                assert(w@.files =~= old(w)@.files + files_of(dir.path@, cs.take(i + 1)));
                assert(w@.pending =~= old(w)@.pending + dirs_of(
                    dir.path@,
                    dir.depth,
                    cs.take(i + 1),
                ));
            }
            i = i + 1;
        }
        proof {
            assert(cs.take(children@.len() as int) =~= cs);
        }
    }

    /// Whether a discovered file is a font file: its extension is on the
    /// canonical allowlist.
    pub fn is_font_file(file_info: &FileInfo) -> (r: bool)
        ensures
            r == (file_info@.extension matches Some(x) && is_font_ext(x)),
    {
        match &file_info.extension {
            Some(ext) => {
                let e = ext.as_str();
                str_eq(e, "ttf") || str_eq(e, "otf") || str_eq(e, "ttc") || str_eq(e, "otc")
                    || str_eq(e, "woff") || str_eq(e, "woff2") || str_eq(e, "eot")
            },
            None => false,
        }
    }

    /// Keeps the regular files whose extension is on the font allowlist,
    /// sorted by name.  Filtering and sorting keep exactly the font files
    /// found (as a multiset), and an already-sorted font list is returned
    /// unchanged.
    pub fn scan_fonts(files: Vec<FileInfo>) -> (r: Vec<FileInfo>)
        ensures
            names_sorted(simple_models(r@)),
            simple_models(r@).to_multiset() == font_files_of(simple_models(files@)).to_multiset(),
            forall|k: Seq<char>|
                #[trigger] name_filter(simple_models(r@), k) == name_filter(
                    font_files_of(simple_models(files@)),
                    k,
                ),
            names_sorted(font_files_of(simple_models(files@))) ==> simple_models(r@)
                == font_files_of(simple_models(files@)),
    {
        let ghost ms = simple_models(files@);
        let mut kept: Vec<FileInfo> = Vec::new();
        proof {
            assert(ms.take(0) =~= Seq::<SimpleModel>::empty());
            assert(simple_models(kept@) =~= font_files_of(ms.take(0)));
        }
        let mut i: usize = 0;
        while i < files.len()
            invariant
                i <= files.len(),
                ms == simple_models(files@),
                simple_models(kept@) == font_files_of(ms.take(i as int)),
            decreases files.len() - i,
        {
            let ghost pre = simple_models(kept@);
            proof {
                assert(ms.take(i + 1).drop_last() =~= ms.take(i as int));
                assert(ms.take(i + 1).last() == ms[i as int]);
                assert(ms[i as int] == files@[i as int]@);
            }
            let keep = matches!(files[i].file_type, FileType::RegularFile)
                && Self::is_font_file(&files[i]);
            if keep {
                kept.push(files[i].duplicate());
                proof {
                    assert(simple_models(kept@) =~= pre.push(ms[i as int]));
                    assert(font_files_of(ms.take(i + 1)) =~= pre.push(ms[i as int]));
                }
            } else {
                proof {
                    assert(font_files_of(ms.take(i + 1)) =~= pre);
                }
            }
            i = i + 1;
        }
        proof {
            assert(ms.take(files@.len() as int) =~= ms);
        }
        sort_by_name(kept)
    }
}

/// The subsequence of font files: regular files with an allowlisted
/// extension, in order.
pub open spec fn font_files_of(s: Seq<SimpleModel>) -> Seq<SimpleModel>
    decreases s.len(),
{
    if s.len() == 0 {
        Seq::empty()
    } else {
        font_files_of(s.drop_last()) + (if s.last().file_type is RegularFile && (
        s.last().extension matches Some(x) && is_font_ext(x)) {
            seq![s.last()]
        } else {
            Seq::empty()
        })
    }
}

/// The sequence is in name order.
pub open spec fn names_sorted(s: Seq<SimpleModel>) -> bool {
    forall|i: int, j: int| 0 <= i < j < s.len() ==> #[trigger] lex_le(s[i].name, s[j].name)
}

/// Inserting at the first position whose element's name is not below the
/// new name keeps the name order.
proof fn lemma_name_sorted_insert(s: Seq<SimpleModel>, x: SimpleModel, p: int)
    requires
        names_sorted(s),
        0 <= p <= s.len(),
        forall|q: int| 0 <= q < p ==> lex_le((#[trigger] s[q]).name, x.name),
        p < s.len() ==> !lex_le(s[p].name, x.name),
    ensures
        names_sorted(s.insert(p, x)),
{
    let t = s.insert(p, x);
    if p < s.len() {
        crate::text::lemma_lex_le_total(s[p].name, x.name);
    }
    assert forall|i: int, j: int| 0 <= i < j < t.len() implies #[trigger] lex_le(
        t[i].name,
        t[j].name,
    ) by {
        if i == p {
            if j - 1 > p {
                crate::text::lemma_lex_le_trans(x.name, s[p].name, s[j - 1].name);
            }
        } else if j == p {
        } else {
            let si: int = if i < p {
                i
            } else {
                i - 1
            };
            let sj: int = if j < p {
                j
            } else {
                j - 1
            };
            if si < sj {
            } else {
                assert(si == sj);
                if i < p && j > p {
                    crate::text::lemma_lex_le_total(s[si].name, s[si].name);
                }
            }
        }
    }
}

/// The subsequence of files named `k`, in order.
pub open spec fn name_filter(s: Seq<SimpleModel>, k: Seq<char>) -> Seq<SimpleModel>
    decreases s.len(),
{
    if s.len() == 0 {
        Seq::empty()
    } else {
        name_filter(s.drop_last(), k) + (if s.last().name == k {
            seq![s.last()]
        } else {
            Seq::empty()
        })
    }
}

proof fn lemma_name_filter_add(a: Seq<SimpleModel>, b: Seq<SimpleModel>, k: Seq<char>)
    ensures
        name_filter(a + b, k) == name_filter(a, k) + name_filter(b, k),
    decreases b.len(),
{
    if b.len() == 0 {
        assert(a + b =~= a);
        assert(name_filter(a, k) + name_filter(b, k) =~= name_filter(a, k));
    } else {
        lemma_name_filter_add(a, b.drop_last(), k);
        assert((a + b).drop_last() =~= a + b.drop_last());
        assert((a + b).last() == b.last());
        assert(name_filter(a + b, k) =~= name_filter(a, k) + name_filter(b, k));
    }
}

proof fn lemma_name_filter_none(s: Seq<SimpleModel>, k: Seq<char>)
    requires
        forall|i: int| 0 <= i < s.len() ==> (#[trigger] s[i]).name != k,
    ensures
        name_filter(s, k) == Seq::<SimpleModel>::empty(),
    decreases s.len(),
{
    if s.len() > 0 {
        lemma_name_filter_none(s.drop_last(), k);
        assert(name_filter(s, k) =~= Seq::<SimpleModel>::empty());
    }
}

/// Inserting `x` at the first position whose element's name is not below
/// the new name keeps, for every name, the name's subsequence intact, with
/// `x` appended at the end of its own name's subsequence: the insertion is
/// stable.
proof fn lemma_name_stable_insert(s: Seq<SimpleModel>, x: SimpleModel, p: int)
    requires
        names_sorted(s),
        0 <= p <= s.len(),
        forall|q: int| 0 <= q < p ==> lex_le((#[trigger] s[q]).name, x.name),
        p < s.len() ==> !lex_le(s[p].name, x.name),
    ensures
        forall|k: Seq<char>|
            #[trigger] name_filter(s.insert(p, x), k) == name_filter(s, k) + (if x.name == k {
                seq![x]
            } else {
                Seq::<SimpleModel>::empty()
            }),
{
    let front = s.take(p);
    let back = s.skip(p);
    assert(s =~= front + back);
    assert(s.insert(p, x) =~= front + (seq![x] + back));
    assert forall|q: int| 0 <= q < back.len() implies (#[trigger] back[q]).name != x.name by {
        if back[q].name == x.name {
            crate::text::lemma_lex_le_refl(x.name);
            assert(back[q] == s[p + q]);
            if q > 0 {
                crate::text::lemma_lex_le_trans(s[p].name, s[p + q].name, x.name);
            }
            assert(false);
        }
    }
    assert forall|k: Seq<char>|
        #[trigger] name_filter(s.insert(p, x), k) == name_filter(s, k) + (if x.name == k {
            seq![x]
        } else {
            Seq::<SimpleModel>::empty()
        }) by {
        lemma_name_filter_add(front, back, k);
        lemma_name_filter_add(front, seq![x] + back, k);
        lemma_name_filter_add(seq![x], back, k);
        assert(seq![x].drop_last() =~= Seq::<SimpleModel>::empty());
        assert(name_filter(Seq::<SimpleModel>::empty(), k) =~= Seq::<SimpleModel>::empty());
        assert(name_filter(seq![x], k) =~= (if x.name == k {
            seq![x]
        } else {
            Seq::<SimpleModel>::empty()
        }));
        if x.name == k {
            lemma_name_filter_none(back, k);
            assert(name_filter(s.insert(p, x), k) =~= name_filter(s, k) + seq![x]);
        } else {
            assert(name_filter(s.insert(p, x), k) =~= name_filter(s, k));
            assert(name_filter(s, k) + Seq::<SimpleModel>::empty() =~= name_filter(s, k));
        }
    }
}

/// Inserting an element anywhere adds it to the multiset of the sequence.
proof fn lemma_simple_insert_to_multiset(s: Seq<SimpleModel>, x: SimpleModel, p: int)
    requires
        0 <= p <= s.len(),
    ensures
        s.insert(p, x).to_multiset() == s.to_multiset().insert(x),
{
    broadcast use vstd::seq_lib::group_to_multiset_ensures;

    let front = s.take(p);
    let back = s.skip(p);
    assert(s =~= front + back);
    assert(s.insert(p, x) =~= front.push(x) + back);
    vstd::seq_lib::lemma_multiset_commutative(front, back);
    vstd::seq_lib::lemma_multiset_commutative(front.push(x), back);
    assert(front.push(x).to_multiset() =~= front.to_multiset().insert(x));
    assert(s.insert(p, x).to_multiset() =~= s.to_multiset().insert(x));
}

/// Sorts discovered files by name.  Sorting keeps exactly the same files
/// (as a multiset), it is stable (files of one name keep their given
/// order), and sorting an already-sorted sequence returns it unchanged.
pub fn sort_by_name(files: Vec<FileInfo>) -> (r: Vec<FileInfo>)
    ensures
        names_sorted(simple_models(r@)),
        simple_models(r@).to_multiset() == simple_models(files@).to_multiset(),
        forall|k: Seq<char>|
            #[trigger] name_filter(simple_models(r@), k) == name_filter(
                simple_models(files@),
                k,
            ),
        names_sorted(simple_models(files@)) ==> simple_models(r@) == simple_models(files@),
{
    broadcast use vstd::seq_lib::group_to_multiset_ensures;

    let ghost all = simple_models(files@);
    let mut out: Vec<FileInfo> = Vec::new();
    proof {
        assert(simple_models(files@.take(0)) =~= Seq::<SimpleModel>::empty());
        assert(simple_models(out@) =~= Seq::<SimpleModel>::empty());
        assert(simple_models(out@).to_multiset() =~= simple_models(files@.take(0)).to_multiset());
    }
    let mut idx: usize = 0;
    while idx < files.len()
        invariant
            idx <= files.len(),
            all == simple_models(files@),
            names_sorted(simple_models(out@)),
            simple_models(out@).to_multiset() == simple_models(
                files@.take(idx as int),
            ).to_multiset(),
            forall|k: Seq<char>|
                #[trigger] name_filter(simple_models(out@), k) == name_filter(
                    simple_models(files@.take(idx as int)),
                    k,
                ),
            out@.len() == idx,
            names_sorted(all) ==> simple_models(out@) == simple_models(files@.take(idx as int)),
        decreases files.len() - idx,
    {
        let x = files[idx].duplicate();
        let ghost before = simple_models(out@);
        let mut p: usize = 0;
        loop
            invariant
                p <= out.len(),
                simple_models(out@) == before,
                forall|q: int| 0 <= q < p ==> lex_le((#[trigger] before[q]).name, x@.name),
            ensures
                p <= out.len(),
                forall|q: int| 0 <= q < p ==> lex_le((#[trigger] before[q]).name, x@.name),
                p < out.len() ==> !lex_le(before[p as int].name, x@.name),
                simple_models(out@) == before,
            decreases out.len() - p,
        {
            if p == out.len() {
                break ;
            }
            if !crate::text::str_le(out[p].name.as_str(), x.name.as_str()) {
                break ;
            }
            p = p + 1;
        }
        proof {
            lemma_name_sorted_insert(before, x@, p as int);
            lemma_simple_insert_to_multiset(before, x@, p as int);
            assert(simple_models(files@.take(idx + 1)) =~= simple_models(
                files@.take(idx as int),
            ).push(files@[idx as int]@));
            simple_models(files@.take(idx as int)).to_multiset_ensures();
            assert(simple_models(files@.take(idx as int)).push(x@).to_multiset() == simple_models(
                files@.take(idx as int),
            ).to_multiset().insert(x@));
            assert(simple_models(files@.take(idx + 1)).to_multiset() =~= simple_models(
                files@.take(idx as int),
            ).to_multiset().insert(x@));
        }
        out.insert(p, x);
        proof {
            assert(simple_models(out@) =~= before.insert(p as int, x@));
            lemma_name_stable_insert(before, x@, p as int);
            assert forall|k: Seq<char>|
                #[trigger] name_filter(simple_models(out@), k) == name_filter(
                    simple_models(files@.take(idx + 1)),
                    k,
                ) by {
                assert(name_filter(before.insert(p as int, x@), k) == name_filter(before, k) + (
                if x@.name == k {
                    seq![x@]
                } else {
                    Seq::<SimpleModel>::empty()
                }));
                lemma_name_filter_add(simple_models(files@.take(idx as int)), seq![x@], k);
                assert(seq![x@].drop_last() =~= Seq::<SimpleModel>::empty());
                assert(name_filter(Seq::<SimpleModel>::empty(), k)
                    =~= Seq::<SimpleModel>::empty());
                assert(name_filter(seq![x@], k) =~= (if x@.name == k {
                    seq![x@]
                } else {
                    Seq::<SimpleModel>::empty()
                }));
                assert(simple_models(files@.take(idx + 1)) =~= simple_models(
                    files@.take(idx as int),
                ) + seq![x@]);
                assert(name_filter(simple_models(out@), k) =~= name_filter(
                    simple_models(files@.take(idx + 1)),
                    k,
                ));
            }
            if names_sorted(all) {
                assert forall|q: int| 0 <= q < before.len() implies lex_le(
                    (#[trigger] before[q]).name,
                    x@.name,
                ) by {
                    assert(before[q] == simple_models(files@.take(idx as int))[q]);
                    assert(simple_models(files@.take(idx as int))[q] == all[q]);
                    assert(all[idx as int] == x@);
                    assert(lex_le(all[q].name, all[idx as int].name));
                }
                assert(p as int == before.len());
                assert(simple_models(out@) =~= before.push(x@));
                assert(simple_models(out@) =~= simple_models(files@.take(idx + 1)));
            }
        }
        idx = idx + 1;
    }
    proof {
        assert(files@.take(files@.len() as int) =~= files@);
    }
    out
}

/// Renders a byte count for display, scaling up to gigabytes.
pub fn format_file_size(size: u64) -> (r: String)
    ensures
        r@ == size_str(size, 3),
{
    format_size(size, 3)
}

/// The byte total over discovered files.
pub open spec fn sum_simple_sizes(s: Seq<SimpleModel>) -> nat
    decreases s.len(),
{
    if s.len() == 0 {
        0
    } else {
        sum_simple_sizes(s.drop_last()) + s.last().size as nat
    }
}

/// One line of the font listing: the name, the extension in upper case (a
/// placeholder when there is none), and the size.
pub open spec fn font_line(f: SimpleModel) -> Seq<char> {
    "• "@ + f.name + " ("@ + (match f.extension {
        Some(e) => upper_of(e),
        None => "unknown"@,
    }) + ") - "@ + size_str(f.size, 3) + "\n"@
}

/// The font listing, line by line.
pub open spec fn font_lines(s: Seq<SimpleModel>) -> Seq<char>
    decreases s.len(),
{
    if s.len() == 0 {
        Seq::empty()
    } else {
        font_lines(s.drop_last()) + font_line(s.last())
    }
}

/// The whole font listing report for a directory: a not-found notice when
/// nothing was discovered, otherwise the header, one line per file, and the
/// byte total (saturating at the largest representable count).
pub open spec fn fonts_report(dir: Seq<char>, files: Seq<SimpleModel>) -> Seq<char> {
    if files.len() == 0 {
        "📁 目录: "@ + dir + "\n❌ 未找到字体文件"@
    } else {
        "🗡🗡🗡 Rust库\n"@ + "📁 目录: "@ + dir + "\n"@ + "🔤 找到 "@ + dec_str(files.len())
            + " 个字体文件:\n\n"@ + font_lines(files) + "\n📊 总计: "@ + size_str(
            sat_u64(sum_simple_sizes(files)),
            3,
        )
    }
}

/// Renders one line of the font listing.
fn font_line_exec(f: &FileInfo) -> (r: String)
    ensures
        r@ == font_line(f@),
{
    let mut line = String::from_str("• ");
    line.append(f.name.as_str());
    line.append(" (");
    match &f.extension {
        Some(e) => {
            let up = to_uppercase(e.as_str());
            line.append(up.as_str());
        },
        None => {
            line.append("unknown");
        },
    }
    line.append(") - ");
    let sz = format_file_size(f.size);
    line.append(sz.as_str());
    line.append("\n");
    proof {
        assert(line@ =~= font_line(f@));
    }
    line
}

/// Renders the font listing report for the discovered files of a
/// directory.
pub fn load_fonts_info(directory: &str, font_files: &Vec<FileInfo>) -> (r: String)
    ensures
        r@ == fonts_report(directory@, simple_models(font_files@)),
{
    let ghost ms = simple_models(font_files@);
    if font_files.len() == 0 {
        let mut out = String::from_str("📁 目录: ");
        out.append(directory);
        out.append("\n❌ 未找到字体文件");
        proof {
            assert(out@ =~= fonts_report(directory@, ms));
        }
        return out;
    }
    let mut total: u64 = 0;
    proof {
        assert(ms.take(0) =~= Seq::<SimpleModel>::empty());
    }
    let mut i: usize = 0;
    while i < font_files.len()
        invariant
            i <= font_files.len(),
            ms == simple_models(font_files@),
            total == sat_u64(sum_simple_sizes(ms.take(i as int))),
        decreases font_files.len() - i,
    {
        proof {
            assert(ms.take(i + 1).drop_last() =~= ms.take(i as int));
            assert(ms.take(i + 1).last() == ms[i as int]);
            assert(ms[i as int] == font_files@[i as int]@);
        }
        let sz = font_files[i].size;
        if total > u64::MAX - sz {
            total = u64::MAX;
        } else {
            total = total + sz;
        }
        i = i + 1;
    }
    proof {
        assert(ms.take(font_files@.len() as int) =~= ms);
    }
    let mut out = String::from_str("🗡🗡🗡 Rust库\n");
    out.append("📁 目录: ");
    out.append(directory);
    out.append("\n");
    out.append("🔤 找到 ");
    let n = u64_to_string(font_files.len() as u64);
    out.append(n.as_str());
    out.append(" 个字体文件:\n\n");
    let ghost head = out@;
    proof {
        assert(out@ =~= head + font_lines(ms.take(0)));
    }
    let mut k: usize = 0;
    while k < font_files.len()
        invariant
            k <= font_files.len(),
            ms == simple_models(font_files@),
            out@ == head + font_lines(ms.take(k as int)),
        decreases font_files.len() - k,
    {
        let line = font_line_exec(&font_files[k]);
        out.append(line.as_str());
        proof {
            assert(ms.take(k + 1).drop_last() =~= ms.take(k as int));
            assert(ms.take(k + 1).last() == ms[k as int]);
            assert(ms[k as int] == font_files@[k as int]@);
            assert(out@ =~= head + font_lines(ms.take(k + 1)));
        }
        k = k + 1;
    }
    out.append("\n📊 总计: ");
    let ts = format_file_size(total);
    out.append(ts.as_str());
    proof {
        assert(ms.take(font_files@.len() as int) =~= ms);
        assert(out@ =~= fonts_report(directory@, ms));
    }
    out
}

} // verus!
