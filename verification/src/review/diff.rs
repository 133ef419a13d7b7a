//! Unified diffs and line statistics between two blobs. Used for
//! checkpoint diffs (snapshot → snapshot) and commit diffs (tree → tree)
//! alike; the caller decides which two contents to compare.

use crate::git::diff::LineStats;
use crate::text::{self, lossy_text};
use vstd::prelude::*;
use vstd::slice::slice_subrange;

verus! {

/// Unified diff context lines.
pub const CONTEXT_LINES: u32 = 3;

/// How many bytes are looked at to tell text from binary content.
pub const PROBE_BYTES: usize = 8192;

/// Content with a zero byte near its start is binary.
pub open spec fn looks_binary(data: Seq<u8>) -> bool {
    exists|i: int| 0 <= i < data.len() && i < PROBE_BYTES && #[trigger] data[i] == 0
}

/// How many lines some content has; a last line may lack its line feed.
pub open spec fn line_count(data: Seq<u8>) -> nat
    decreases data.len(),
{
    if data.len() == 0 {
        0
    } else if data.last() == 10 {
        1 + line_count_before(data.drop_last())
    } else {
        1 + line_count_before(data)
    }
}

/// How many line feeds some content has.
pub open spec fn line_count_before(data: Seq<u8>) -> nat
    decreases data.len(),
{
    if data.len() == 0 {
        0
    } else {
        line_count_before(data.drop_last()) + if data.last() == 10 {
            1nat
        } else {
            0nat
        }
    }
}

/// Content has no more line feeds than bytes.
pub proof fn lemma_feeds_bound(data: Seq<u8>)
    ensures
        line_count_before(data) <= data.len(),
    decreases data.len(),
{
    if data.len() > 0 {
        lemma_feeds_bound(data.drop_last());
    }
}

/// Two contents that can be compared line by line. A comparison numbers every
/// line of both, and its tables are twice as large as that.
pub open spec fn diffable(before: Seq<u8>, after: Seq<u8>) -> bool {
    &&& line_count(before) + line_count(after) <= i32::MAX
    &&& line_count(before) < i32::MAX
    &&& line_count(after) < i32::MAX
    &&& 20 * before.len() <= usize::MAX
    &&& 20 * after.len() <= usize::MAX
}

/// Content that can be compared with any other such content, itself among them.
pub open spec fn matchable(data: Seq<u8>) -> bool {
    2 * line_count(data) <= i32::MAX && 20 * data.len() <= usize::MAX
}

/// Two such contents can be compared.
pub proof fn lemma_matchable(before: Seq<u8>, after: Seq<u8>)
    requires
        matchable(before),
        matchable(after),
    ensures
        diffable(before, after),
{
}

fn count_of(data: &[u8]) -> (r: usize)
    ensures
        r == line_count(data@),
{
    let mut feeds: usize = 0;
    let mut k: usize = 0;
    assert(data@.take(0) =~= Seq::empty());
    while k < data.len()
        invariant
            k <= data@.len(),
            feeds <= k,
            feeds == line_count_before(data@.take(k as int)),
            k > 0 && data@[k - 1] != 10 ==> feeds < k,
        decreases data@.len() - k,
    {
        assert(data@.take(k + 1).drop_last() =~= data@.take(k as int));
        assert(data@.take(k + 1).last() == data@[k as int]);
        if data[k] == 10 {
            feeds = feeds + 1;
        }
        k += 1;
    }
    assert(data@.take(k as int) =~= data@);
    let n: usize = data.len();
    if n == 0 {
        0
    } else if data[n - 1] == 10 {
        feeds
    } else {
        feeds + 1
    }
}

/// Whether two contents can be compared line by line.
pub fn is_diffable(before: &[u8], after: &[u8]) -> (r: bool)
    ensures
        r == diffable(before@, after@),
{
    let b: u128 = count_of(before) as u128;
    let a: u128 = count_of(after) as u128;
    let most: u128 = i32::MAX as u128;
    b + a <= most && b < most && a < most && 20 * (before.len() as u128) <= usize::MAX as u128
        && 20 * (after.len() as u128) <= usize::MAX as u128
}

/// Whether content can be compared with any other such content.
pub fn is_matchable(data: &[u8]) -> (r: bool)
    ensures
        r == matchable(data@),
{
    2 * (count_of(data) as u128) <= i32::MAX as u128 && 20 * (data.len() as u128)
        <= usize::MAX as u128
}

// ---------------------------------------------------------------------------
// The comparison itself
/// The hunks of the line diff of two contents: first and last line before,
/// first and last line after, the last ones excluded.
pub uninterp spec fn hunks_between(before: Seq<u8>, after: Seq<u8>) -> Seq<(u32, u32, u32, u32)>;

/// The changed line ranges of two contents, by the histogram algorithm of
/// `gix::diff::blob::Diff::compute`.
///
/// Claimed of it: the hunks depend on the two contents alone; each range ends
/// no earlier than it starts and within its content, and before the next one
/// starts; outside the hunks both contents have as many lines, and equal
/// contents have no hunks. Which lines the algorithm matches is left to it.
#[verifier::external_body]
fn hunks(before: &[u8], after: &[u8]) -> (r: Vec<(u32, u32, u32, u32)>)
    requires
        diffable(before@, after@),
    ensures
        r@ == hunks_between(before@, after@),
        forall|i: int|
            0 <= i < r@.len() ==> (#[trigger] r@[i]).0 <= r@[i].1 <= line_count(before@) && r@[i].2
                <= r@[i].3 <= line_count(after@),
        forall|i: int, j: int|
            0 <= i < j < r@.len() ==> (#[trigger] r@[i]).1 < (#[trigger] r@[j]).0 && r@[i].3
                < r@[j].2,
        line_count(before@) + added_lines(r@) == line_count(after@) + removed_lines(r@),
        before@ == after@ ==> r@.len() == 0,
{
    let input = gix::diff::blob::InternedInput::new(
        gix::diff::blob::sources::byte_lines(before),
        gix::diff::blob::sources::byte_lines(after),
    );
    gix::diff::blob::Diff::compute(gix::diff::blob::Algorithm::Histogram, &input).hunks().map(
        |h| (h.before.start, h.before.end, h.after.start, h.after.end),
    ).collect()
}

/// The hunks of the unified diff of two contents, with `newline` behind every
/// hunk header and every line that does not end in it.
pub uninterp spec fn unified_hunks(
    before: Seq<u8>,
    after: Seq<u8>,
    newline: Seq<char>,
    context: u32,
) -> Option<Seq<u8>>;

/// The hunks of a unified diff, as `gix::diff::blob::UnifiedDiff` writes them
/// through `ConsumeBinaryHunk` into bytes; `None` when it fails.
///
/// Claimed of it: the bytes depend on the two contents, the separator and the
/// number of context lines alone, and equal contents, which have no hunks, give
/// no bytes.
#[verifier::external_body]
fn unified(before: &[u8], after: &[u8], newline: &str, context: u32) -> (r: Option<Vec<u8>>)
    requires
        diffable(before@, after@),
        context == CONTEXT_LINES,
    ensures
        r.deep_view() == unified_hunks(before@, after@, newline@, context),
        before@ == after@ ==> r.deep_view() == Some(Seq::<u8>::empty()),
{
    let input = gix::diff::blob::InternedInput::new(
        gix::diff::blob::sources::byte_lines(before),
        gix::diff::blob::sources::byte_lines(after),
    );
    let diff = gix::diff::blob::Diff::compute(gix::diff::blob::Algorithm::Histogram, &input);
    gix::diff::blob::UnifiedDiff::new(
        &diff,
        &input,
        gix::diff::blob::unified_diff::ConsumeBinaryHunk::new(Vec::new(), newline),
        gix::diff::blob::unified_diff::ContextSize::symmetrical(context),
    ).consume().ok()
}

// ---------------------------------------------------------------------------
pub fn is_binary(data: &[u8]) -> (r: bool)
    ensures
        r == looks_binary(data@),
{
    let mut k: usize = 0;
    while k < data.len() && k < PROBE_BYTES
        invariant
            k <= data@.len(),
            k <= PROBE_BYTES,
            forall|i: int| 0 <= i < k ==> data@[i] != 0,
        decreases data@.len() - k,
    {
        if data[k] == 0 {
            assert(data@[k as int] == 0);
            return true;
        }
        k += 1;
    }
    false
}

/// How many lines some hunks remove.
pub open spec fn removed_lines(hunks: Seq<(u32, u32, u32, u32)>) -> int
    decreases hunks.len(),
{
    if hunks.len() == 0 {
        0
    } else {
        removed_lines(hunks.drop_last()) + (hunks.last().1 - hunks.last().0)
    }
}

/// How many lines some hunks add.
pub open spec fn added_lines(hunks: Seq<(u32, u32, u32, u32)>) -> int
    decreases hunks.len(),
{
    if hunks.len() == 0 {
        0
    } else {
        added_lines(hunks.drop_last()) + (hunks.last().3 - hunks.last().2)
    }
}

/// Hunks that end no earlier than they start, in order and apart.
pub open spec fn in_sequence(hunks: Seq<(u32, u32, u32, u32)>) -> bool {
    &&& forall|i: int|
        0 <= i < hunks.len() ==> (#[trigger] hunks[i]).0 <= hunks[i].1 && hunks[i].2 <= hunks[i].3
    &&& forall|i: int, j: int|
        0 <= i < j < hunks.len() ==> (#[trigger] hunks[i]).1 < (#[trigger] hunks[j]).0 && hunks[i].3
            < hunks[j].2
}

/// Hunks in sequence change no more lines than there are up to the end of the
/// last one.
proof fn lemma_lines_within(hunks: Seq<(u32, u32, u32, u32)>, k: int)
    requires
        in_sequence(hunks),
        0 < k <= hunks.len(),
    ensures
        0 <= removed_lines(hunks.take(k)) <= hunks[k - 1].1,
        0 <= added_lines(hunks.take(k)) <= hunks[k - 1].3,
    decreases k,
{
    assert(hunks.take(k).drop_last() =~= hunks.take(k - 1));
    assert(hunks[k - 1].0 <= hunks[k - 1].1);
    if k > 1 {
        lemma_lines_within(hunks, k - 1);
        assert(hunks[k - 2].1 < hunks[k - 1].0);
    } else {
        reveal_with_fuel(removed_lines, 2);
        reveal_with_fuel(added_lines, 2);
    }
}

/// The line counts of some hunks.
pub fn count_lines(hunks: &Vec<(u32, u32, u32, u32)>) -> (r: LineStats)
    requires
        in_sequence(hunks@),
    ensures
        r.deletions == removed_lines(hunks@),
        r.additions == added_lines(hunks@),
        r.deletions <= u32::MAX,
        r.additions <= u32::MAX,
{
    let mut deletions: u64 = 0;
    let mut additions: u64 = 0;
    let mut k: usize = 0;
    while k < hunks.len()
        invariant
            k <= hunks.len(),
            in_sequence(hunks@),
            deletions == removed_lines(hunks@.take(k as int)),
            additions == added_lines(hunks@.take(k as int)),
            deletions <= u32::MAX,
            additions <= u32::MAX,
        decreases hunks.len() - k,
    {
        proof {
            assert(hunks@.take(k + 1).drop_last() =~= hunks@.take(k as int));
            lemma_lines_within(hunks@, k + 1);
            assert(hunks@[k as int].0 <= hunks@[k as int].1);
        }
        let h: (u32, u32, u32, u32) = hunks[k];
        deletions = deletions + (h.1 - h.0) as u64;
        additions = additions + (h.3 - h.2) as u64;
        k += 1;
    }
    assert(hunks@.take(k as int) =~= hunks@);
    LineStats { additions, deletions }
}

/// Line counts of the change from `before` to `after`: no more lines are
/// deleted than there were and none added beyond those there are, the rest of
/// both is the same number of lines, and equal contents differ in none.
pub fn line_stats(before: &[u8], after: &[u8]) -> (r: LineStats)
    requires
        diffable(before@, after@),
    ensures
        r.deletions == removed_lines(hunks_between(before@, after@)),
        r.additions == added_lines(hunks_between(before@, after@)),
        r.deletions <= line_count(before@),
        r.additions <= line_count(after@),
        line_count(before@) + r.additions == line_count(after@) + r.deletions,
        before@ == after@ ==> r.additions == 0 && r.deletions == 0,
{
    let found: Vec<(u32, u32, u32, u32)> = hunks(before, after);
    let ghost n = found@.len() as int;
    proof {
        assert(found@.take(n) =~= found@);
        if n > 0 {
            lemma_lines_within(found@, n);
            assert(found@[n - 1].1 <= line_count(before@));
        }
    }
    count_lines(&found)
}

/// How many bytes stand before the first line feed; all of them when there is
/// none.
pub open spec fn before_feed(s: Seq<u8>) -> int
    decreases s.len(),
{
    if s.len() == 0 || s[0] == 10 {
        0
    } else {
        1 + before_feed(s.drop_first())
    }
}

/// What follows the first `k` bytes.
pub open spec fn past(s: Seq<u8>, k: int) -> Seq<u8> {
    if k <= s.len() {
        s.skip(k)
    } else {
        Seq::empty()
    }
}

/// The text of hunks, from two renderings of them: `marked` has a line feed
/// behind every header and line, `plain` only where the content has one. A
/// line that is closed in the first alone ends its file without a line feed,
/// and says so.
pub open spec fn hunks_text(marked: Seq<u8>, plain: Seq<u8>) -> Seq<char>
    decreases marked.len(),
{
    let k = before_feed(marked);
    if marked.len() == 0 {
        Seq::empty()
    } else if k < 0 || k >= marked.len() {
        lossy_text(marked)
    } else if marked[0] == 64 {
        lossy_text(marked.take(k)) + "\n"@ + hunks_text(marked.skip(k + 1), past(plain, k))
    } else if k == 0 {
        hunks_text(marked.skip(1), plain)
    } else if k < plain.len() && plain[k] == 10 {
        seq![marked[0] as char] + lossy_text(marked.subrange(1, k + 1)) + hunks_text(
            marked.skip(k + 1),
            plain.skip(k + 1),
        )
    } else {
        seq![marked[0] as char] + lossy_text(marked.subrange(1, k))
            + "\n\\ No newline at end of file\n"@ + hunks_text(marked.skip(k + 1), past(plain, k))
    }
}

fn find_feed(s: &[u8], from: usize) -> (r: usize)
    requires
        from <= s@.len(),
    ensures
        from <= r <= s@.len(),
        r == from + before_feed(s@.skip(from as int)),
{
    let mut k: usize = from;
    let ghost rest = s@.skip(from as int);
    assert(rest.skip(0) =~= rest);
    while k < s.len() && s[k] != 10
        invariant
            from <= k <= s@.len(),
            rest == s@.skip(from as int),
            before_feed(rest) == k - from + before_feed(rest.skip(k - from)),
        decreases s@.len() - k,
    {
        assert(rest.skip(k - from).drop_first() =~= rest.skip(k - from + 1));
        k += 1;
    }
    k
}

/// The text of hunks, from their renderings with and without added line feeds.
pub fn render_hunks(marked: &[u8], plain: &[u8]) -> (r: String)
    ensures
        r@ == hunks_text(marked@, plain@),
{
    let mut out: String = String::new();
    let mut i: usize = 0;
    let mut j: usize = 0;
    assert(marked@.skip(0) =~= marked@);
    assert(plain@.skip(0) =~= plain@);
    assert(out@ + hunks_text(marked@, plain@) =~= hunks_text(marked@, plain@));
    while i < marked.len()
        invariant
            i <= marked@.len(),
            j <= plain@.len(),
            out@ + hunks_text(marked@.skip(i as int), plain@.skip(j as int)) == hunks_text(
                marked@,
                plain@,
            ),
        decreases marked@.len() - i,
    {
        let ghost was = out@;
        let ghost m = marked@.skip(i as int);
        let ghost p = plain@.skip(j as int);
        let end: usize = find_feed(marked, i);
        let ghost k = end - i;
        if end == marked.len() {
            assert(marked@.subrange(i as int, end as int) =~= m);
            out.append(&text::lossy(slice_subrange(marked, i, end)));
            assert(out@ == hunks_text(marked@, plain@));
            return out;
        }
        let left: usize = plain.len() - j;
        let len: usize = end - i;
        let at: usize = if len <= left {
            j + len
        } else {
            plain.len()
        };
        if marked[i] == 64 {
            assert(marked@.subrange(i as int, end as int) =~= m.take(k));
            out.append(&text::lossy(slice_subrange(marked, i, end)));
            out.append("\n");
            assert(marked@.skip(end + 1) =~= m.skip(k + 1));
            assert(plain@.skip(at as int) =~= past(p, k));
            assert(out@ + hunks_text(m.skip(k + 1), past(p, k)) =~= was + hunks_text(m, p));
            j = at;
        } else if len == 0 {
            assert(marked@.skip(end + 1) =~= m.skip(1));
        } else if len < left && plain[j + len] == 10 {
            out.push(marked[i] as char);
            assert(marked@.subrange(i + 1, end + 1) =~= m.subrange(1, k + 1));
            out.append(&text::lossy(slice_subrange(marked, i + 1, end + 1)));
            assert(marked@.skip(end + 1) =~= m.skip(k + 1));
            assert(plain@.skip(at + 1) =~= p.skip(k + 1));
            assert(out@ + hunks_text(m.skip(k + 1), p.skip(k + 1)) =~= was + hunks_text(m, p));
            j = at + 1;
        } else {
            out.push(marked[i] as char);
            assert(marked@.subrange(i + 1, end as int) =~= m.subrange(1, k));
            out.append(&text::lossy(slice_subrange(marked, i + 1, end)));
            out.append("\n\\ No newline at end of file\n");
            assert(marked@.skip(end + 1) =~= m.skip(k + 1));
            assert(plain@.skip(at as int) =~= past(p, k));
            assert(out@ + hunks_text(m.skip(k + 1), past(p, k)) =~= was + hunks_text(m, p));
            j = at;
        }
        i = end + 1;
    }
    assert(marked@.skip(i as int) =~= Seq::empty());
    assert(out@ + Seq::<char>::empty() =~= out@);
    out
}

/// The content on one side of a diff; nothing where there is no file.
pub open spec fn content(side: Option<Seq<u8>>) -> Seq<u8> {
    match side {
        Some(data) => data,
        None => Seq::empty(),
    }
}

/// The hunks of the diff of two contents, as text.
pub open spec fn body_text(before: Seq<u8>, after: Seq<u8>) -> Seq<char> {
    match (
        unified_hunks(before, after, "\n"@, CONTEXT_LINES),
        unified_hunks(before, after, ""@, CONTEXT_LINES),
    ) {
        (Some(marked), Some(plain)) => hunks_text(marked, plain),
        _ => Seq::empty(),
    }
}

/// The two header lines of a unified diff.
pub open spec fn header_text(
    path: Seq<char>,
    from_path: Option<Seq<char>>,
    before: bool,
    after: bool,
) -> Seq<char> {
    "--- "@ + (if !before {
        "/dev/null"@
    } else {
        "a/"@ + (match from_path {
            Some(from) => from,
            None => path,
        })
    }) + "\n"@ + "+++ "@ + (if !after {
        "/dev/null"@
    } else {
        "b/"@ + path
    }) + "\n"@
}

/// A unified diff: headers, and the hunks unless a side is binary.
pub open spec fn diff_text(
    path: Seq<char>,
    from_path: Option<Seq<char>>,
    before: Option<Seq<u8>>,
    after: Option<Seq<u8>>,
) -> Seq<char> {
    header_text(path, from_path, before is Some, after is Some) + (if looks_binary(content(before))
        || looks_binary(content(after)) {
        "Binary files differ\n"@
    } else {
        body_text(content(before), content(after))
    })
}

/// Unified diff between two snapshots, with `---`/`+++` headers. Equal contents
/// that are not binary give the headers alone.
pub fn unified_diff(
    path: &str,
    from_path: Option<&str>,
    before: Option<&[u8]>,
    after: Option<&[u8]>,
) -> (r: String)
    requires
        diffable(content(before.deep_view()), content(after.deep_view())),
    ensures
        r@ == diff_text(path@, from_path.deep_view(), before.deep_view(), after.deep_view()),
        content(before.deep_view()) == content(after.deep_view()) && !looks_binary(
            content(before.deep_view()),
        ) ==> r@ == header_text(path@, from_path.deep_view(), before is Some, after is Some),
{
    let old_name: String = match (before, from_path) {
        (None, _) => "/dev/null".to_owned(),
        (Some(_), Some(from)) => text::cat2("a/", from),
        (Some(_), None) => text::cat2("a/", path),
    };
    let new_name: String = match after {
        None => "/dev/null".to_owned(),
        Some(_) => text::cat2("b/", path),
    };
    let mut out: String = text::cat6("--- ", &old_name, "\n", "+++ ", &new_name, "\n");
    let nothing: Vec<u8> = Vec::new();
    let b: &[u8] = match before {
        Some(data) => data,
        None => nothing.as_slice(),
    };
    let a: &[u8] = match after {
        Some(data) => data,
        None => nothing.as_slice(),
    };
    assert(b@ =~= content(before.deep_view()));
    assert(a@ =~= content(after.deep_view()));
    if is_binary(b) || is_binary(a) {
        out.append("Binary files differ\n");
        return out;
    }
    let ghost head = out@;
    match (unified(b, a, "\n", CONTEXT_LINES), unified(b, a, "", CONTEXT_LINES)) {
        (Some(marked), Some(plain)) => {
            assert(marked.deep_view() =~= marked@);
            assert(plain.deep_view() =~= plain@);
            out.append(&render_hunks(marked.as_slice(), plain.as_slice()));
            assert(head + Seq::<char>::empty() =~= head);
        },
        _ => {
            assert(head + Seq::<char>::empty() =~= head);
        },
    }
    out
}

} // verus!
