//! Bulk font-copy accounting.  The byte moving itself is input/output and
//! happens outside this crate: for each discovered file the caller asks
//! [`FontCopier::copy_precheck`] whether the copy may proceed, performs it,
//! and records the outcome with [`record_detail`].  The accounting invariant
//! — every attempt is either a success or a failure, and the byte total is
//! the sum over the successes — is kept here.

use vstd::prelude::*;

use crate::sat_u64;
use crate::scanner::FileInfo;
use crate::text::{dec_str, size_str, u64_to_string};

verus! {

/// The outcome of one per-file copy attempt.
#[derive(Debug, Clone)]
pub struct CopyDetail {
    pub file_name: String,
    pub file_size: u64,
    pub success: bool,
    pub error: Option<String>,
}

/// The mathematical model of a [`CopyDetail`].
pub struct DetailModel {
    pub file_name: Seq<char>,
    pub file_size: u64,
    pub success: bool,
    pub error: Option<Seq<char>>,
}

impl View for CopyDetail {
    type V = DetailModel;

    open spec fn view(&self) -> DetailModel {
        DetailModel {
            file_name: self.file_name@,
            file_size: self.file_size,
            success: self.success,
            error: crate::opt_view(self.error),
        }
    }
}

/// The report of one bulk copy invocation.
#[derive(Debug, Clone)]
pub struct CopyResult {
    pub source_dir: String,
    pub target_dir: String,
    pub total_files: usize,
    pub successful_copies: usize,
    pub failed_copies: usize,
    pub total_size: u64,
    pub duration_ms: u64,
    pub details: Vec<CopyDetail>,
    pub errors: Vec<String>,
}

/// The mathematical model of a [`CopyResult`].
pub struct CopyModel {
    pub source_dir: Seq<char>,
    pub target_dir: Seq<char>,
    pub total_files: usize,
    pub successful_copies: usize,
    pub failed_copies: usize,
    pub total_size: u64,
    pub duration_ms: u64,
    pub details: Seq<DetailModel>,
    pub errors: Seq<Seq<char>>,
}

impl View for CopyResult {
    type V = CopyModel;

    open spec fn view(&self) -> CopyModel {
        CopyModel {
            source_dir: self.source_dir@,
            target_dir: self.target_dir@,
            total_files: self.total_files,
            successful_copies: self.successful_copies,
            failed_copies: self.failed_copies,
            total_size: self.total_size,
            duration_ms: self.duration_ms,
            details: self.details@.map_values(|d: CopyDetail| d@),
            errors: self.errors@.map_values(|e: String| e@),
        }
    }
}

/// How many recorded attempts succeeded.
pub open spec fn succ_count(s: Seq<DetailModel>) -> nat
    decreases s.len(),
{
    if s.len() == 0 {
        0
    } else {
        succ_count(s.drop_last()) + (if s.last().success {
            1nat
        } else {
            0nat
        })
    }
}

/// The byte total over the successful attempts.
pub open spec fn succ_bytes(s: Seq<DetailModel>) -> nat
    decreases s.len(),
{
    if s.len() == 0 {
        0
    } else {
        succ_bytes(s.drop_last()) + (if s.last().success {
            s.last().file_size as nat
        } else {
            0nat
        })
    }
}

/// The accounting invariant of a copy report: every recorded attempt is
/// counted exactly once, as a success or as a failure, so the two counters
/// always sum to the number of attempts; and the byte total is the sum over
/// the successful attempts (saturating at the largest representable count).
pub open spec fn copy_wf(r: CopyModel) -> bool {
    r.successful_copies as nat == succ_count(r.details) && r.successful_copies + r.failed_copies
        == r.details.len() && r.total_size == sat_u64(succ_bytes(r.details))
}

/// No more attempts succeed than were recorded.
proof fn lemma_succ_count_bounded(s: Seq<DetailModel>)
    ensures
        succ_count(s) <= s.len(),
    decreases s.len(),
{
    if s.len() > 0 {
        lemma_succ_count_bounded(s.drop_last());
    }
}

impl CopyResult {
    /// An empty report for a copy from `source_dir` to `target_dir`.
    pub fn new(source_dir: String, target_dir: String) -> (r: CopyResult)
        ensures
            r@.source_dir == source_dir@,
            r@.target_dir == target_dir@,
            r@.total_files == 0,
            r@.successful_copies == 0,
            r@.failed_copies == 0,
            r@.total_size == 0,
            r@.duration_ms == 0,
            r@.details == Seq::<DetailModel>::empty(),
            r@.errors == Seq::<Seq<char>>::empty(),
            copy_wf(r@),
    {
        let r = CopyResult {
            source_dir,
            target_dir,
            total_files: 0,
            successful_copies: 0,
            failed_copies: 0,
            total_size: 0,
            duration_ms: 0,
            details: Vec::new(),
            errors: Vec::new(),
        };
        proof {
            assert(r@.details =~= Seq::<DetailModel>::empty());
            assert(r@.errors =~= Seq::<Seq<char>>::empty());
        }
        r
    }
}

/// Records one attempt's outcome in the report, keeping the accounting
/// invariant: a success raises the success counter and adds the file's
/// bytes (saturating); a failure raises the failure counter.
pub fn record_detail(result: &mut CopyResult, detail: CopyDetail)
    requires
        copy_wf(old(result)@),
        old(result)@.details.len() < usize::MAX,
    ensures
        copy_wf(final(result)@),
        final(result)@.details == old(result)@.details.push(detail@),
        final(result)@.successful_copies == old(result)@.successful_copies + (if detail@.success {
            1int
        } else {
            0int
        }),
        final(result)@.failed_copies == old(result)@.failed_copies + (if detail@.success {
            0int
        } else {
            1int
        }),
        final(result)@.source_dir == old(result)@.source_dir,
        final(result)@.target_dir == old(result)@.target_dir,
        final(result)@.total_files == old(result)@.total_files,
        final(result)@.duration_ms == old(result)@.duration_ms,
        final(result)@.errors == old(result)@.errors,
{
    proof {
        lemma_succ_count_bounded(old(result)@.details);
    }
    let ghost pre = result@.details;
    if detail.success {
        result.successful_copies = result.successful_copies + 1;
        let sz = detail.file_size;
        if result.total_size > u64::MAX - sz {
            result.total_size = u64::MAX;
        } else {
            result.total_size = result.total_size + sz;
        }
    } else {
        result.failed_copies = result.failed_copies + 1;
    }
    result.details.push(detail);
    proof {
        assert(final(result)@.details =~= pre.push(detail@));
        assert(final(result)@.details.drop_last() =~= pre);
    }
}

/// The fixed reason recorded when the destination already exists and
/// overwriting is off.
pub open spec fn exists_reason() -> Seq<char> {
    "文件已存在"@
}

/// The bulk font copier: its one policy knob is whether an existing
/// destination file may be overwritten.
pub struct FontCopier {
    pub overwrite: bool,
}

impl FontCopier {
    /// Creates a copier with the given overwrite policy.
    pub fn new(overwrite: bool) -> (c: Self)
        ensures
            c.overwrite == overwrite,
    {
        Self { overwrite }
    }

    /// Decides one file's fate before any byte moves: the attempt is
    /// refused — recorded as a failure with the fixed reason — exactly when
    /// the destination exists and overwriting is off; otherwise (`None`)
    /// the copy should proceed.
    pub fn copy_precheck(&self, file: &FileInfo, dest_exists: bool) -> (r: Option<CopyDetail>)
        ensures
            (r is Some) == (dest_exists && !self.overwrite),
            (match r {
                Some(d) => d@.file_name == file@.name && d@.file_size == file@.size
                    && !d@.success && d@.error == Some(exists_reason()),
                None => true,
            }),
    {
        if dest_exists && !self.overwrite {
            Some(
                CopyDetail {
                    file_name: file.name.clone(),
                    file_size: file.size,
                    success: false,
                    error: Some(String::from_str("文件已存在")),
                },
            )
        } else {
            None
        }
    }
}

/// Turns the outcome of a performed copy into its record: a success keeps
/// no reason, a failure keeps the error text.
pub fn detail_from_attempt(file: &FileInfo, outcome: Result<u64, String>) -> (r: CopyDetail)
    ensures
        r@.file_name == file@.name,
        r@.file_size == file@.size,
        r@.success == (outcome is Ok),
        (match outcome {
            Ok(_) => r@.error is None,
            Err(e) => r@.error == Some(e@),
        }),
{
    match outcome {
        Ok(_) => CopyDetail {
            file_name: file.name.clone(),
            file_size: file.size,
            success: true,
            error: None,
        },
        Err(e) => CopyDetail {
            file_name: file.name.clone(),
            file_size: file.size,
            success: false,
            error: Some(e),
        },
    }
}

/// One line of the per-file detail listing.
pub open spec fn detail_line(d: DetailModel) -> Seq<char> {
    (if d.success {
        "✅"@
    } else {
        "❌"@
    }) + " "@ + d.file_name + " ("@ + size_str(d.file_size, 3) + ")"@ + (match d.error {
        Some(e) => " - "@ + e,
        None => Seq::empty(),
    }) + "\n"@
}

/// The per-file detail listing, line by line.
pub open spec fn detail_lines(s: Seq<DetailModel>) -> Seq<char>
    decreases s.len(),
{
    if s.len() == 0 {
        Seq::empty()
    } else {
        detail_lines(s.drop_last()) + detail_line(s.last())
    }
}

/// The fatal-error listing, one bulleted line per message.
pub open spec fn fatal_lines(errors: Seq<Seq<char>>) -> Seq<char>
    decreases errors.len(),
{
    if errors.len() == 0 {
        Seq::empty()
    } else {
        fatal_lines(errors.drop_last()) + "• "@ + errors.last() + "\n"@
    }
}

/// The whole human-readable report of a copy invocation.
pub open spec fn copy_report(r: CopyModel) -> Seq<char> {
    "📁 字体文件复制\n"@ + "源目录: "@ + r.source_dir + "\n"@ + "目标目录: "@ + r.target_dir
        + "\n"@ + "耗时: "@ + dec_str(r.duration_ms as nat) + " ms\n\n"@ + "📊 统计:\n"@
        + "• 发现: "@ + dec_str(r.total_files as nat) + " 个字体文件\n"@ + "• 成功: "@ + dec_str(
        r.successful_copies as nat,
    ) + " 个\n"@ + "• 失败: "@ + dec_str(r.failed_copies as nat) + " 个\n"@ + "• 总大小: "@
        + size_str(r.total_size, 3) + "\n\n"@ + (if r.details.len() > 0 {
        "📋 详情:\n"@ + detail_lines(r.details)
    } else {
        Seq::empty()
    }) + (if r.errors.len() > 0 {
        "\n❌ 错误:\n"@ + fatal_lines(r.errors)
    } else {
        Seq::empty()
    })
}

/// Renders one line of the per-file detail listing.
fn detail_line_exec(d: &CopyDetail) -> (r: String)
    ensures
        r@ == detail_line(d@),
{
    let mut line = if d.success {
        String::from_str("✅")
    } else {
        String::from_str("❌")
    };
    line.append(" ");
    line.append(d.file_name.as_str());
    line.append(" (");
    let sz = crate::scanner::format_file_size(d.file_size);
    line.append(sz.as_str());
    line.append(")");
    if let Some(e) = &d.error {
        line.append(" - ");
        line.append(e.as_str());
    }
    line.append("\n");
    proof {
        assert(line@ =~= detail_line(d@));
    }
    line
}

/// Renders a copy report as human-readable text.
#[verifier::rlimit(60)]
pub fn format_copy_result(result: &CopyResult) -> (r: String)
    ensures
        r@ == copy_report(result@),
{
    let mut out = String::from_str("📁 字体文件复制\n");
    out.append("源目录: ");
    out.append(result.source_dir.as_str());
    out.append("\n");
    out.append("目标目录: ");
    out.append(result.target_dir.as_str());
    out.append("\n");
    out.append("耗时: ");
    let dur = u64_to_string(result.duration_ms);
    out.append(dur.as_str());
    out.append(" ms\n\n");
    out.append("📊 统计:\n");
    out.append("• 发现: ");
    let tf = u64_to_string(result.total_files as u64);
    out.append(tf.as_str());
    out.append(" 个字体文件\n");
    out.append("• 成功: ");
    let sc = u64_to_string(result.successful_copies as u64);
    out.append(sc.as_str());
    out.append(" 个\n");
    out.append("• 失败: ");
    let fc = u64_to_string(result.failed_copies as u64);
    out.append(fc.as_str());
    out.append(" 个\n");
    out.append("• 总大小: ");
    let ts = crate::scanner::format_file_size(result.total_size);
    out.append(ts.as_str());
    out.append("\n\n");
    let ghost ds = result.details@.map_values(|d: CopyDetail| d@);
    if result.details.len() > 0 {
        out.append("📋 详情:\n");
        let ghost head = out@;
        proof {
            assert(ds.take(0) =~= Seq::<DetailModel>::empty());
            assert(out@ =~= head + detail_lines(ds.take(0)));
        }
        let mut i: usize = 0;
        while i < result.details.len()
            invariant
                i <= result.details.len(),
                ds == result.details@.map_values(|d: CopyDetail| d@),
                out@ == head + detail_lines(ds.take(i as int)),
            decreases result.details.len() - i,
        {
            let line = detail_line_exec(&result.details[i]);
            out.append(line.as_str());
            proof {
                assert(ds.take(i + 1).drop_last() =~= ds.take(i as int));
                assert(ds.take(i + 1).last() == ds[i as int]);
                assert(ds[i as int] == result.details@[i as int]@);
                assert(out@ =~= head + detail_lines(ds.take(i + 1)));
            }
            i = i + 1;
        }
        proof {
            assert(ds.take(result.details@.len() as int) =~= ds);
        }
    }
    let ghost es = result.errors@.map_values(|e: String| e@);
    if result.errors.len() > 0 {
        out.append("\n❌ 错误:\n");
        let ghost head2 = out@;
        proof {
            assert(es.take(0) =~= Seq::<Seq<char>>::empty());
            assert(out@ =~= head2 + fatal_lines(es.take(0)));
        }
        let mut k: usize = 0;
        while k < result.errors.len()
            invariant
                k <= result.errors.len(),
                es == result.errors@.map_values(|e: String| e@),
                out@ == head2 + fatal_lines(es.take(k as int)),
            decreases result.errors.len() - k,
        {
            out.append("• ");
            out.append(result.errors[k].as_str());
            out.append("\n");
            proof {
                assert(es.take(k + 1).drop_last() =~= es.take(k as int));
                assert(es.take(k + 1).last() == es[k as int]);
                assert(es[k as int] == result.errors@[k as int]@);
                assert(out@ =~= head2 + fatal_lines(es.take(k + 1)));
            }
            k = k + 1;
        }
        proof {
            assert(es.take(result.errors@.len() as int) =~= es);
        }
    }
    proof {
        assert(out@ =~= copy_report(result@));
    }
    out
}

} // verus!
