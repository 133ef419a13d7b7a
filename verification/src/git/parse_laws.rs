//! What git's output says.

use super::diff::{numstat_entries, status_entries, tag_and_rest, ChangeKind};
use crate::text::{self, lossy_text};
use vstd::prelude::*;

verus! {

/// Columns, each followed by a separator, and a rest.
pub open spec fn columns(cols: Seq<Seq<char>>, sep: char, rest: Seq<char>) -> Seq<char>
    decreases cols.len(),
{
    if cols.len() == 0 {
        rest
    } else {
        cols[0] + seq![sep] + columns(cols.drop_first(), sep, rest)
    }
}

/// No column holds the separator.
pub open spec fn are_columns(cols: Seq<Seq<char>>, sep: char) -> bool {
    forall|i: int, j: int|
        0 <= i < cols.len() && 0 <= j < cols[i].len() ==> #[trigger] cols[i][j] != sep
}

proof fn lemma_splitn_columns(cols: Seq<Seq<char>>, sep: char, rest: Seq<char>)
    requires
        are_columns(cols, sep),
    ensures
        text::splitn(columns(cols, sep, rest), cols.len() + 1, sep) == cols.push(rest),
    decreases cols.len(),
{
    let s = columns(cols, sep, rest);
    if cols.len() == 0 {
        assert(text::splitn(s, 1, sep) =~= cols.push(rest));
    } else {
        let more = cols.drop_first();
        assert(are_columns(more, sep)) by {
            assert forall|i: int, j: int|
                0 <= i < more.len() && 0 <= j < more[i].len() implies #[trigger] more[i][j]
                != sep by {
                assert(cols[i + 1][j] != sep);
            }
        }
        lemma_splitn_columns(more, sep, rest);
        let k = cols[0].len() as int;
        assert(s[k] == sep);
        assert forall|i: int| 0 <= i < k implies s[i] != sep by {
            assert(s[i] == cols[0][i]);
        }
        text::lemma_before_first_unique(s, sep, k);
        assert(s.take(k) =~= cols[0]);
        assert(s.skip(k + 1) =~= columns(more, sep, rest));
        assert(text::splitn(s, cols.len() + 1, sep) =~= cols.push(rest));
    }
}

/// The kind that a letter of git's stands for; a dot and any other stands for
/// none.
pub open spec fn is_letter(c: char, kind: Option<ChangeKind>) -> bool {
    &&& c == 'A' <==> kind == Some(ChangeKind::Added)
    &&& c == 'M' <==> kind == Some(ChangeKind::Modified)
    &&& c == 'D' <==> kind == Some(ChangeKind::Deleted)
    &&& c == 'R' <==> kind == Some(ChangeKind::Renamed)
    &&& c == 'T' <==> kind == Some(ChangeKind::TypeChanged)
    &&& c == 'C' <==> kind == Some(ChangeKind::Copied)
    &&& c == 'U' <==> kind == Some(ChangeKind::Conflicted)
}

/// A line of `git status`: a tag, the two letters, further columns and the path,
/// which may hold spaces.
pub open spec fn status_line(
    tag: char,
    x: char,
    y: char,
    cols: Seq<Seq<char>>,
    p: Seq<char>,
) -> Seq<char> {
    seq![tag, ' '] + columns(seq![seq![x, y]] + cols, ' ', p)
}

proof fn lemma_tag(tag: char, rest: Seq<char>)
    requires
        tag != ' ',
    ensures
        tag_and_rest(seq![tag, ' '] + rest) == (seq![tag], rest),
{
    let s = seq![tag, ' '] + rest;
    assert(s[0] == tag && s[1] == ' ');
    text::lemma_before_first_unique(s, ' ', 1);
    assert(s.take(1) =~= seq![tag]);
    assert(s.skip(2) =~= rest);
}

proof fn lemma_changed(x: char, y: char, cols: Seq<Seq<char>>, p: Seq<char>)
    requires
        x != ' ',
        y != ' ',
        are_columns(cols, ' '),
    ensures
        text::splitn(columns(seq![seq![x, y]] + cols, ' ', p), cols.len() + 2, ' ') == (seq![
            seq![x, y],
        ] + cols).push(p),
{
    let all = seq![seq![x, y]] + cols;
    assert(are_columns(all, ' ')) by {
        assert forall|i: int, j: int|
            0 <= i < all.len() && 0 <= j < all[i].len() implies #[trigger] all[i][j] != ' ' by {
            if i > 0 {
                assert(all[i] == cols[i - 1]);
                assert(cols[i - 1][j] != ' ');
            }
        }
    }
    lemma_splitn_columns(all, ' ', p);
}

/// A changed file is read with its path and its two letters: what is staged, and
/// what is not. The lines behind it are read as if it were not there.
pub proof fn lemma_changed_files_are_read(
    x: char,
    y: char,
    cols: Seq<Seq<char>>,
    p: Seq<char>,
    rest: Seq<Seq<char>>,
)
    requires
        x != ' ',
        y != ' ',
        cols.len() == 6,
        are_columns(cols, ' '),
    ensures
        ({
            let r = status_entries(seq![status_line('1', x, y, cols, p)] + rest);
            &&& r.len() == 1 + status_entries(rest).len()
            &&& r.skip(1) == status_entries(rest)
            &&& r[0].path == p
            &&& r[0].orig_path is None
            &&& is_letter(x, r[0].staged)
            &&& is_letter(y, r[0].unstaged)
            &&& !r[0].untracked
        }),
{
    let line = status_line('1', x, y, cols, p);
    let fields = seq![line] + rest;
    reveal_strlit("1");
    reveal_strlit("2");
    lemma_tag('1', columns(seq![seq![x, y]] + cols, ' ', p));
    lemma_changed(x, y, cols, p);
    assert(seq!['1'] =~= "1"@);
    assert(fields.skip(1) =~= rest);
    let all = (seq![seq![x, y]] + cols).push(p);
    assert(all[0] == seq![x, y]);
    assert(all.last() == p);
    let r = status_entries(fields);
    assert(r.skip(1) =~= status_entries(rest));
}

/// A renamed file is read with its path and its letters, and the field behind it
/// as the path it had.
pub proof fn lemma_renamed_files_are_read(
    x: char,
    y: char,
    cols: Seq<Seq<char>>,
    p: Seq<char>,
    from: Seq<char>,
    rest: Seq<Seq<char>>,
)
    requires
        x != ' ',
        y != ' ',
        cols.len() == 7,
        are_columns(cols, ' '),
    ensures
        ({
            let r = status_entries(seq![status_line('2', x, y, cols, p), from] + rest);
            &&& r.len() == 1 + status_entries(rest).len()
            &&& r.skip(1) == status_entries(rest)
            &&& r[0].path == p
            &&& r[0].orig_path == Some(from)
            &&& is_letter(x, r[0].staged)
            &&& is_letter(y, r[0].unstaged)
            &&& !r[0].untracked
        }),
{
    let line = status_line('2', x, y, cols, p);
    let fields = seq![line, from] + rest;
    reveal_strlit("1");
    reveal_strlit("2");
    lemma_tag('2', columns(seq![seq![x, y]] + cols, ' ', p));
    lemma_changed(x, y, cols, p);
    assert(seq!['2'] =~= "2"@);
    assert("1"@[0] != "2"@[0]);
    assert(fields.skip(2) =~= rest);
    let all = (seq![seq![x, y]] + cols).push(p);
    assert(all[0] == seq![x, y]);
    assert(all.last() == p);
    let r = status_entries(fields);
    assert(r.skip(1) =~= status_entries(rest));
}

/// A file with conflicts is read as conflicted on both sides, and an untracked
/// file as untracked, whatever its path holds.
pub proof fn lemma_other_files_are_read(
    x: char,
    y: char,
    cols: Seq<Seq<char>>,
    p: Seq<char>,
    rest: Seq<Seq<char>>,
)
    requires
        x != ' ',
        y != ' ',
        cols.len() == 8,
        are_columns(cols, ' '),
    ensures
        ({
            let u = status_entries(seq![status_line('u', x, y, cols, p)] + rest);
            let q = status_entries(seq![seq!['?', ' '] + p] + rest);
            &&& u.len() == 1 + status_entries(rest).len()
            &&& u.skip(1) == status_entries(rest)
            &&& u[0].path == p
            &&& u[0].staged == Some(ChangeKind::Conflicted)
            &&& u[0].unstaged == Some(ChangeKind::Conflicted)
            &&& !u[0].untracked
            &&& q.len() == 1 + status_entries(rest).len()
            &&& q.skip(1) == status_entries(rest)
            &&& q[0].path == p
            &&& q[0].untracked
            &&& q[0].staged is None
            &&& q[0].unstaged is None
        }),
{
    reveal_strlit("1");
    reveal_strlit("2");
    reveal_strlit("u");
    reveal_strlit("?");
    let line = status_line('u', x, y, cols, p);
    let other = seq!['?', ' '] + p;
    lemma_tag('u', columns(seq![seq![x, y]] + cols, ' ', p));
    lemma_tag('?', p);
    lemma_changed(x, y, cols, p);
    assert(seq!['u'] =~= "u"@);
    assert(seq!['?'] =~= "?"@);
    assert("u"@[0] == 'u' && "?"@[0] == '?' && "1"@[0] == '1' && "2"@[0] == '2');
    assert((seq![line] + rest).skip(1) =~= rest);
    assert((seq![other] + rest).skip(1) =~= rest);
    let all = (seq![seq![x, y]] + cols).push(p);
    assert(all[0] == seq![x, y]);
    assert(all.last() == p);
    assert(status_entries(seq![line] + rest).skip(1) =~= status_entries(rest));
    assert(status_entries(seq![other] + rest).skip(1) =~= status_entries(rest));
}

/// The statistics of a file are read: additions, then deletions, then the path.
/// What is no number, as for a binary file, is not counted. What is behind it is
/// read as if it were not there.
pub proof fn lemma_statistics_are_read(
    chunk: Seq<u8>,
    adds: Seq<char>,
    dels: Seq<char>,
    p: Seq<char>,
    rest: Seq<Seq<u8>>,
)
    requires
        chunk.len() > 0,
        are_columns(seq![adds, dels], '\t'),
        lossy_text(chunk) == columns(seq![adds, dels], '\t', p),
        p.len() > 0,
    ensures
        ({
            let r = numstat_entries(seq![chunk] + rest);
            &&& r.len() == 1 + numstat_entries(rest).len()
            &&& r.skip(1) == numstat_entries(rest)
            &&& r[0].path == p
            &&& r[0].old_path is None
            &&& is_count(adds, r[0].additions)
            &&& is_count(dels, r[0].deletions)
        }),
{
    let all = seq![chunk] + rest;
    lemma_splitn_columns(seq![adds, dels], '\t', p);
    let cols = seq![adds, dels].push(p);
    assert(all.skip(1) =~= rest);
    assert(cols[0] == adds && cols[1] == dels && cols[2] == p);
    let r = numstat_entries(all);
    assert(r.skip(1) =~= numstat_entries(rest));
}

/// The statistics of a renamed file have no path of their own: the two chunks
/// behind them are the old path and the new one.
pub proof fn lemma_statistics_of_renames_are_read(
    chunk: Seq<u8>,
    adds: Seq<char>,
    dels: Seq<char>,
    from: Seq<u8>,
    to: Seq<u8>,
    rest: Seq<Seq<u8>>,
)
    requires
        chunk.len() > 0,
        are_columns(seq![adds, dels], '\t'),
        lossy_text(chunk) == columns(seq![adds, dels], '\t', Seq::empty()),
    ensures
        ({
            let r = numstat_entries(seq![chunk, from, to] + rest);
            &&& r.len() == 1 + numstat_entries(rest).len()
            &&& r.skip(1) == numstat_entries(rest)
            &&& r[0].path == lossy_text(to)
            &&& r[0].old_path == Some(lossy_text(from))
            &&& is_count(adds, r[0].additions)
            &&& is_count(dels, r[0].deletions)
        }),
{
    let all = seq![chunk, from, to] + rest;
    let none = Seq::<char>::empty();
    lemma_splitn_columns(seq![adds, dels], '\t', none);
    let cols = seq![adds, dels].push(none);
    assert(all.skip(3) =~= rest);
    assert(cols[0] == adds && cols[1] == dels && cols[2] == none);
    let r = numstat_entries(all);
    assert(r.skip(1) =~= numstat_entries(rest));
}

/// A number of lines, or nothing for what is no number.
pub open spec fn is_count(s: Seq<char>, n: Option<u64>) -> bool {
    match text::number_value(s) {
        Some(v) => v <= u64::MAX ==> n is Some && n->Some_0 == v,
        None => n is None,
    }
}

} // verus!
