//! What git says: its output read into plain values, and the decisions taken
//! on them.

pub mod baseline;
pub mod diff;
pub mod history;
pub mod laws;
pub mod parse_laws;
pub mod repository;
pub mod worktree;

use crate::data::Dup;
use crate::error::{TrailError, TrailErrorView};
use crate::text::{self, lossy_text};
use vstd::prelude::*;
use vstd::slice::slice_subrange;

verus! {

/// How many bytes stand before the first zero byte; all of them when there is
/// none.
pub open spec fn before_nul(s: Seq<u8>) -> int
    decreases s.len(),
{
    if s.len() == 0 || s[0] == 0 {
        0
    } else {
        1 + before_nul(s.drop_first())
    }
}

/// The chunks between every two neighbouring zero bytes. There is always at
/// least one.
pub open spec fn nul_chunks(s: Seq<u8>) -> Seq<Seq<u8>>
    decreases s.len(),
{
    let k = before_nul(s);
    if 0 <= k < s.len() {
        seq![s.take(k)] + nul_chunks(s.skip(k + 1))
    } else {
        seq![s]
    }
}

fn find_nul(s: &[u8], from: usize) -> (r: usize)
    requires
        from <= s@.len(),
    ensures
        from <= r <= s@.len(),
        r == from + before_nul(s@.skip(from as int)),
{
    let mut k: usize = from;
    let ghost rest = s@.skip(from as int);
    assert(rest.skip(0) =~= rest);
    while k < s.len() && s[k] != 0
        invariant
            from <= k <= s@.len(),
            rest == s@.skip(from as int),
            before_nul(rest) == k - from + before_nul(rest.skip(k - from)),
        decreases s@.len() - k,
    {
        assert(rest.skip(k - from).drop_first() =~= rest.skip(k - from + 1));
        k += 1;
    }
    k
}

/// The chunks between zero bytes, each as the positions of its first byte and
/// of the byte behind its last.
pub(crate) fn split_at_nul(s: &[u8]) -> (r: Vec<(usize, usize)>)
    ensures
        r.len() == nul_chunks(s@).len(),
        r.len() > 0,
        forall|i: int|
            0 <= i < r.len() ==> (#[trigger] r[i]).0 <= r[i].1 <= s@.len() && s@.subrange(
                r[i].0 as int,
                r[i].1 as int,
            ) == nul_chunks(s@)[i],
{
    let mut out: Vec<(usize, usize)> = Vec::new();
    let mut from: usize = 0;
    let ghost all = nul_chunks(s@);
    assert(s@.skip(0) =~= s@);
    assert(all.skip(0) =~= all);
    loop
        invariant
            from <= s@.len(),
            all == nul_chunks(s@),
            out.len() < all.len(),
            all.skip(out.len() as int) == nul_chunks(s@.skip(from as int)),
            forall|i: int|
                0 <= i < out.len() ==> (#[trigger] out[i]).0 <= out[i].1 <= s@.len()
                    && s@.subrange(out[i].0 as int, out[i].1 as int) == all[i],
        decreases s@.len() - from,
    {
        let k: usize = find_nul(s, from);
        let ghost rest = s@.skip(from as int);
        let ghost n = out.len() as int;
        assert(s@.subrange(from as int, k as int) =~= rest.take(k - from));
        out.push((from, k));
        assert(all[n] == all.skip(n)[0]);
        if k == s.len() {
            assert(rest.take(k - from) =~= rest);
            assert(all.skip(n) == seq![rest]);
            assert(all.len() == n + 1);
            return out;
        }
        assert(s@.skip(k + 1) =~= rest.skip(k - from + 1));
        assert(all.skip(n + 1) =~= all.skip(n).skip(1));
        assert(all.skip(n).skip(1) =~= nul_chunks(s@.skip(k + 1)));
        proof {
            lemma_some_chunk(s@.skip(k + 1));
        }
        from = k + 1;
    }
}

proof fn lemma_some_chunk(s: Seq<u8>)
    ensures
        nul_chunks(s).len() > 0,
{
}

/// Split NUL separated output into owned strings (lossy UTF-8).
pub(crate) fn split_nul(bytes: &[u8]) -> (r: Vec<String>)
    ensures
        r.deep_view() == diff::nul_fields(bytes@),
{
    let chunks: Vec<(usize, usize)> = split_at_nul(bytes);
    let ghost all = nul_chunks(bytes@);
    let mut out: Vec<String> = Vec::new();
    let mut k: usize = 0;
    assert(out.deep_view() =~= diff::fields_of(all.take(0)));
    while k < chunks.len()
        invariant
            k <= chunks.len(),
            chunks.len() == all.len(),
            all == nul_chunks(bytes@),
            forall|i: int|
                0 <= i < chunks.len() ==> (#[trigger] chunks[i]).0 <= chunks[i].1 <= bytes@.len()
                    && bytes@.subrange(chunks[i].0 as int, chunks[i].1 as int) == all[i],
            out.deep_view() == diff::fields_of(all.take(k as int)),
        decreases chunks.len() - k,
    {
        let ghost was = out.deep_view();
        proof {
            assert(all.take(k + 1).drop_last() =~= all.take(k as int));
            assert(all.take(k + 1).last() == all[k as int]);
        }
        let (a, b): (usize, usize) = chunks[k];
        assert(chunks[k as int].0 <= chunks[k as int].1);
        if a < b {
            out.push(text::lossy(slice_subrange(bytes, a, b)));
            assert(out.deep_view() =~= was.push(lossy_text(all[k as int])));
        }
        k += 1;
    }
    assert(all.take(k as int) =~= all);
    out
}

/// What a failed `git` command is reported as: `stderr` is what it wrote.
pub open spec fn failure(
    workdir: Seq<char>,
    args: Seq<Seq<char>>,
    stderr: Seq<u8>,
) -> TrailErrorView {
    let said = text::trim(lossy_text(stderr));
    if text::holds(said, "Permission denied"@) || text::holds(said, "permission denied"@) {
        TrailErrorView::PermissionDenied(workdir)
    } else {
        TrailErrorView::GitCommand {
            command: if args.len() > 0 {
                args[0]
            } else {
                Seq::empty()
            },
            stderr: said,
        }
    }
}

/// What a failed `git` command is reported as.
pub fn git_failure(workdir: &str, args: &Vec<String>, stderr: &[u8]) -> (r: TrailError)
    ensures
        r.deep_view() == failure(workdir@, args.deep_view(), stderr@),
{
    let all: String = text::lossy(stderr);
    let said: &str = text::trim_of(&all);
    if text::contains(said, "Permission denied") || text::contains(said, "permission denied") {
        return TrailError::PermissionDenied(workdir.to_owned());
    }
    let command: String = if args.len() > 0 {
        assert(args.deep_view()[0] == args[0]@);
        args[0].dup()
    } else {
        String::new()
    };
    assert(args.len() == 0 ==> command@ =~= Seq::empty());
    TrailError::GitCommand { command, stderr: said.to_owned() }
}

/// The arguments of `git status` for the whole worktree: git's own rename
/// detection, and every untracked file.
pub fn status_args() -> (r: Vec<String>)
    ensures
        r.deep_view() == seq!["status"@, "--porcelain=v2"@, "-z"@, "--untracked-files=all"@],
{
    let r: Vec<String> = vec![
        "status".to_owned(),
        "--porcelain=v2".to_owned(),
        "-z".to_owned(),
        "--untracked-files=all".to_owned(),
    ];
    assert(r.deep_view() =~= seq![
        "status"@,
        "--porcelain=v2"@,
        "-z"@,
        "--untracked-files=all"@,
    ]);
    r
}

/// The arguments of `git diff --numstat` of `rev` against the working tree;
/// without paths, of everything.
pub fn numstat_args(rev: &str, paths: &Vec<String>) -> (r: Vec<String>)
    ensures
        r.deep_view() == seq!["diff"@, "--numstat"@, "-z"@, "-M"@, rev@] + (if paths.len() > 0 {
            seq!["--"@] + paths.deep_view()
        } else {
            Seq::empty()
        }),
{
    let mut r: Vec<String> = vec![
        "diff".to_owned(),
        "--numstat".to_owned(),
        "-z".to_owned(),
        "-M".to_owned(),
        rev.to_owned(),
    ];
    if paths.len() > 0 {
        r.push("--".to_owned());
        let mut tail: Vec<String> = paths.dup();
        r.append(&mut tail);
    }
    assert(r.deep_view() =~= seq!["diff"@, "--numstat"@, "-z"@, "-M"@, rev@] + (if paths.len() > 0 {
        seq!["--"@] + paths.deep_view()
    } else {
        Seq::empty()
    }));
    r
}

/// The arguments of the unified diff of one tracked file, `rev` against the
/// working tree.
pub fn unified_args(rev: &str, path: &str) -> (r: Vec<String>)
    ensures
        r.deep_view() == seq!["diff"@, "--no-color"@, "--no-ext-diff"@, rev@, "--"@, path@],
{
    let r: Vec<String> = vec![
        "diff".to_owned(),
        "--no-color".to_owned(),
        "--no-ext-diff".to_owned(),
        rev.to_owned(),
        "--".to_owned(),
        path.to_owned(),
    ];
    assert(r.deep_view() =~= seq![
        "diff"@,
        "--no-color"@,
        "--no-ext-diff"@,
        rev@,
        "--"@,
        path@,
    ]);
    r
}

/// The arguments of the history of one file, following renames, at most
/// `limit` commits.
pub fn file_log_args(path: &str, limit: usize) -> (r: Vec<String>)
    ensures
        r.deep_view() == seq![
            "log"@,
            "--follow"@,
            "--format=%H%x1f%h%x1f%ct%x1f%s"@,
            "-n"@,
            text::decimal(limit as nat),
            "--"@,
            path@,
        ],
{
    let r: Vec<String> = vec![
        "log".to_owned(),
        "--follow".to_owned(),
        "--format=%H%x1f%h%x1f%ct%x1f%s".to_owned(),
        "-n".to_owned(),
        text::decimal_of(limit as u64),
        "--".to_owned(),
        path.to_owned(),
    ];
    assert(r.deep_view() =~= seq![
        "log"@,
        "--follow"@,
        "--format=%H%x1f%h%x1f%ct%x1f%s"@,
        "-n"@,
        text::decimal(limit as nat),
        "--"@,
        path@,
    ]);
    r
}

} // verus!
