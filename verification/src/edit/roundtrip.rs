//! What the buffer of a trail says is what the trail said: reading back an
//! unedited buffer gives the blocks it was made from.

use super::{
    block_of, block_text, blocks_of, bool_text, checkpoint_count, document_of, events_text,
    field_of, file_of, files_text, has_block, header_id, line_read, lines_read, new_block, parsed,
    rendered, some_text, with_field, with_file, BlockView, HEADER,
};
use crate::error::TrailErrorView;
use crate::path;
use crate::text::{chomp, is_space, lemma_before_first_unique, lines, trim, trim_end, trim_start};
use crate::trail::TrailView;
use crate::trail::event::{TrailEventTypeView, TrailEventView};
use vstd::prelude::*;

verus! {

/// A text without a line break.
pub open spec fn one_line(s: Seq<char>) -> bool {
    forall|i: int| 0 <= i < s.len() ==> s[i] != '\n'
}

/// A line of text with something at both ends.
pub open spec fn tidy(s: Seq<char>) -> bool {
    &&& s.len() > 0
    &&& !is_space(s[0])
    &&& !is_space(s.last())
    &&& one_line(s)
}

/// A path that a line of the buffer can name as it is.
pub open spec fn writable_file(f: Seq<char>) -> bool {
    &&& tidy(f)
    &&& f[0] != '#'
    &&& f[0] != '['
    &&& field_of(f) is None
    &&& file_of(f) == f
}

/// A block that the buffer can hold.
pub open spec fn writable_block(b: BlockView) -> bool {
    &&& tidy(b.id)
    &&& b.title is Some ==> tidy(b.title->Some_0)
    &&& b.note is Some ==> tidy(b.note->Some_0)
    &&& forall|i: int| 0 <= i < b.files.len() ==> writable_file(#[trigger] b.files[i])
    &&& forall|i: int, j: int|
        0 <= i < j < b.files.len() ==> !path::same_path(
            #[trigger] b.files[i],
            #[trigger] b.files[j],
        )
}

/// A trail that the buffer can hold: single lines where it has lines, and no
/// two checkpoints of one id.
pub open spec fn writable(trail: TrailView) -> bool {
    &&& one_line(trail.repository.head.label_text())
    &&& forall|i: int|
        0 <= i < trail.events.len() ==> match (#[trigger] trail.events[i]).event_type {
            TrailEventTypeView::Commit { id, short_id, summary, author, is_merge } => one_line(
                short_id,
            ) && one_line(summary),
            _ => true,
        }
    &&& forall|i: int|
        0 <= i < blocks_of(trail.events).len() ==> writable_block(
            #[trigger] blocks_of(trail.events)[i],
        )
    &&& forall|i: int, j: int|
        0 <= i < j < blocks_of(trail.events).len() ==> (#[trigger] blocks_of(trail.events)[i]).id
            != (#[trigger] blocks_of(trail.events)[j]).id
}

// ---------------------------------------------------------------------------
// Lines
/// Lines as one text, each ended by a line break.
pub open spec fn unlines(ls: Seq<Seq<char>>) -> Seq<char>
    decreases ls.len(),
{
    if ls.len() == 0 {
        Seq::empty()
    } else {
        unlines(ls.drop_last()) + ls.last() + seq!['\n']
    }
}

proof fn lemma_unlines_concat(a: Seq<Seq<char>>, b: Seq<Seq<char>>)
    ensures
        unlines(a + b) == unlines(a) + unlines(b),
    decreases b.len(),
{
    if b.len() == 0 {
        assert(a + b =~= a);
        assert(unlines(a) + unlines(b) =~= unlines(a));
    } else {
        lemma_unlines_concat(a, b.drop_last());
        assert((a + b).drop_last() =~= a + b.drop_last());
        assert(unlines(a + b) =~= unlines(a) + unlines(b));
    }
}

proof fn lemma_unlines_one(l: Seq<char>)
    ensures
        unlines(seq![l]) == l + seq!['\n'],
{
    assert(seq![l].drop_last() =~= Seq::empty());
    reveal_with_fuel(unlines, 2);
    assert(unlines(seq![l]) =~= l + seq!['\n']);
}

proof fn lemma_lines_unlines(ls: Seq<Seq<char>>)
    requires
        forall|i: int| 0 <= i < ls.len() ==> one_line(#[trigger] ls[i]),
    ensures
        lines(unlines(ls)) == ls.map_values(|l: Seq<char>| chomp(l)),
    decreases ls.len(),
{
    let f = |l: Seq<char>| chomp(l);
    if ls.len() == 0 {
        assert(lines(unlines(ls)) =~= ls.map_values(f));
    } else {
        let rest = ls.drop_first();
        let l = ls[0];
        assert(ls =~= seq![l] + rest);
        lemma_unlines_concat(seq![l], rest);
        lemma_unlines_one(l);
        let s = unlines(ls);
        assert(s =~= l + seq!['\n'] + unlines(rest));
        assert forall|i: int| 0 <= i < l.len() implies s[i] != '\n' by {
            assert(s[i] == l[i]);
        }
        lemma_before_first_unique(s, '\n', l.len() as int);
        assert(s.take(l.len() as int) =~= l);
        assert(s.skip(l.len() as int + 1) =~= unlines(rest));
        assert forall|i: int| 0 <= i < rest.len() implies one_line(#[trigger] rest[i]) by {
            assert(rest[i] == ls[i + 1]);
        }
        lemma_lines_unlines(rest);
        assert(seq![f(l)] + rest.map_values(f) =~= ls.map_values(f));
    }
}

/// A carriage return at the end of a line does not matter.
proof fn lemma_chomped(ls: Seq<Seq<char>>)
    ensures
        lines_read(ls.map_values(|l: Seq<char>| chomp(l))) == lines_read(ls),
    decreases ls.len(),
{
    let f = |l: Seq<char>| chomp(l);
    if ls.len() == 0 {
        assert(ls.map_values(f) =~= ls);
    } else {
        lemma_chomped(ls.drop_last());
        assert(ls.map_values(f).drop_last() =~= ls.drop_last().map_values(f));
        let l = ls.last();
        assert(trim_end(chomp(l)) == trim_end(l));
    }
}

/// The lines `ls` can be read, and say `bs`.
#[verifier::opaque]
spec fn says(ls: Seq<Seq<char>>, bs: Seq<BlockView>) -> bool {
    lines_read(ls) == Ok::<Seq<BlockView>, TrailErrorView>(bs)
}

proof fn lemma_next(ls: Seq<Seq<char>>, bs: Seq<BlockView>, l: Seq<char>, after: Seq<BlockView>)
    requires
        says(ls, bs),
        line_read(bs, ls.len() + 1, l) == Ok::<Seq<BlockView>, TrailErrorView>(after),
    ensures
        says(ls.push(l), after),
{
    reveal(says);
    assert(ls.push(l).drop_last() =~= ls);
}

/// Nothing is read from an empty line or a comment.
proof fn lemma_skipped(ls: Seq<Seq<char>>, bs: Seq<BlockView>, l: Seq<char>)
    requires
        says(ls, bs),
        l.len() == 0 || l[0] == '#',
    ensures
        says(ls.push(l), bs),
{
    if l.len() > 0 {
        lemma_trim_end_head(l);
    }
    lemma_next(ls, bs, l, bs);
}

proof fn lemma_trim_end_head(l: Seq<char>)
    requires
        l.len() > 0,
        !is_space(l[0]),
    ensures
        trim_end(l).len() > 0,
        trim_end(l)[0] == l[0],
        trim_start(trim_end(l)) == trim_end(l),
    decreases l.len(),
{
    if is_space(l.last()) {
        lemma_trim_end_head(l.drop_last());
    }
}

proof fn lemma_trimmed(s: Seq<char>)
    requires
        s.len() > 0,
        !is_space(s[0]),
        !is_space(s.last()),
    ensures
        trim_start(s) == s,
        trim_end(s) == s,
        trim(s) == s,
{
}

// ---------------------------------------------------------------------------
// One block
proof fn lemma_header_line(id: Seq<char>)
    requires
        tidy(id),
    ensures
        ({
            let l = "[checkpoint:"@ + id + "]"@;
            &&& l.len() > 0
            &&& l[0] == '['
            &&& !is_space(l.last())
            &&& header_id(l.skip(1)) == Ok::<Seq<char>, Seq<char>>(id)
            &&& one_line(l)
        }),
{
    reveal_strlit("[checkpoint:");
    reveal_strlit("]");
    reveal_strlit("checkpoint");
    reveal_strlit("commit");
    let l = "[checkpoint:"@ + id + "]"@;
    let rest = l.skip(1);
    assert("]"@ =~= seq![']']);
    assert(rest.skip(rest.len() - 1) =~= "]"@);
    assert("]"@.is_suffix_of(rest));
    let inner = rest.take(rest.len() - 1);
    assert(inner =~= "checkpoint"@ + seq![':'] + id);
    lemma_before_first_unique(inner, ':', 10);
    assert(inner.take(10) =~= "checkpoint"@);
    assert(inner.skip(11) =~= id);
    lemma_trimmed(id);
    assert("checkpoint"@.len() != "commit"@.len());
    assert forall|i: int| 0 <= i < l.len() implies l[i] != '\n' by {
        if 12 <= i < 12 + id.len() {
            assert(l[i] == id[i - 12]);
        }
    }
}

/// A field line reads as its field.
proof fn lemma_field_line(key: Seq<char>, value: Seq<char>)
    requires
        super::is_bare(key),
        value.len() == 0 || tidy(value),
    ensures
        ({
            let l = key + " = "@ + value;
            let line = trim_start(trim_end(l));
            &&& line.len() > 0
            &&& line[0] == key[0]
            &&& field_of(line) == Some((key, value))
            &&& one_line(l)
        }),
{
    reveal_strlit(" = ");
    let l = key + " = "@ + value;
    let n = key.len() as int;
    assert(crate::text::is_alphanumeric(key[0]) || key[0] == '_');
    assert(!is_space(key[0]));
    assert(l[0] == key[0]);
    assert(crate::text::is_alphanumeric(key[n - 1]) || key[n - 1] == '_');
    assert(!is_space(key.last()));
    assert forall|i: int| 0 <= i < n implies key[i] != '=' && key[i] != '\n' by {
        assert(crate::text::is_alphanumeric(key[i]) || key[i] == '_');
    }
    let cut = key + " ="@;
    reveal_strlit(" =");
    let line = if value.len() == 0 {
        cut
    } else {
        l
    };
    if value.len() == 0 {
        assert(l.drop_last() =~= cut);
        assert(is_space(l.last()));
        assert(trim_end(l) == trim_end(cut));
        assert(cut.last() == '=');
        assert(trim_end(cut) == cut);
    } else {
        assert(l.last() == value.last());
        assert(trim_end(l) == l);
    }
    assert(line[0] == key[0]);
    assert(trim_start(line) == line);
    assert(line[n] == ' ');
    assert(line[n + 1] == '=');
    assert forall|i: int| 0 <= i < n + 1 implies line[i] != '=' by {
        if i < n {
            assert(line[i] == key[i]);
        }
    }
    lemma_before_first_unique(line, '=', n + 1);
    let k = line.take(n + 1);
    assert(k =~= key.push(' '));
    assert(trim_start(k) == k);
    assert(k.drop_last() =~= key);
    assert(trim_end(k) == trim_end(key));
    lemma_trimmed(key);
    let v = line.skip(n + 2);
    if value.len() == 0 {
        assert(v =~= value);
        assert(trim(v) == v);
    } else {
        assert(v =~= seq![' '] + value);
        assert(v.drop_first() =~= value);
        assert(trim_start(v) == trim_start(value));
        lemma_trimmed(value);
    }
    assert forall|i: int| 0 <= i < l.len() implies l[i] != '\n' by {
        if i < n {
            assert(l[i] == key[i]);
        } else if i >= n + 3 {
            assert(l[i] == value[i - n - 3]);
        }
    }
}

proof fn lemma_read_field(
    ls: Seq<Seq<char>>,
    bs: Seq<BlockView>,
    key: Seq<char>,
    value: Seq<char>,
    after: BlockView,
)
    requires
        says(ls, bs),
        bs.len() > 0,
        super::is_bare(key),
        value.len() == 0 || tidy(value),
        with_field(bs.last(), key, value) == Ok::<BlockView, Seq<char>>(after),
    ensures
        says(ls.push(key + " = "@ + value), bs.drop_last().push(after)),
        one_line(key + " = "@ + value),
{
    lemma_field_line(key, value);
    let l = key + " = "@ + value;
    let line = trim_start(trim_end(l));
    assert(crate::text::is_alphanumeric(key[0]) || key[0] == '_');
    lemma_next(ls, bs, l, bs.drop_last().push(after));
}

/// The lines of one block.
spec fn block_lines(b: BlockView) -> Seq<Seq<char>> {
    seq![
        "[checkpoint:"@ + b.id + "]"@,
        "title"@ + " = "@ + (match b.title {
            Some(t) => t,
            None => ""@,
        }),
        "hidden"@ + " = "@ + bool_text(b.hidden),
    ] + (match b.note {
        Some(n) => seq!["note"@ + " = "@ + n],
        None => Seq::empty(),
    }) + seq![Seq::<char>::empty()] + b.files + seq![Seq::<char>::empty()]
}

proof fn lemma_files_text(files: Seq<Seq<char>>)
    ensures
        files_text(files) == unlines(files),
    decreases files.len(),
{
    reveal_strlit("\n");
    assert("\n"@ =~= seq!['\n']);
    if files.len() > 0 {
        lemma_files_text(files.drop_last());
    }
}

proof fn lemma_block_text(b: BlockView)
    ensures
        block_text(b) == unlines(block_lines(b)),
{
    reveal_strlit("\n");
    reveal_strlit("]\n");
    reveal_strlit("]");
    reveal_strlit("");
    reveal_strlit(" = ");
    reveal_strlit("title");
    reveal_strlit("title = ");
    reveal_strlit("hidden");
    reveal_strlit("hidden = ");
    reveal_strlit("note");
    reveal_strlit("note = ");
    let nl = seq!['\n'];
    assert("\n"@ =~= nl);
    assert("]\n"@ =~= "]"@ + nl);
    assert(""@ =~= Seq::empty());
    assert("title"@ + " = "@ =~= "title = "@);
    assert("hidden"@ + " = "@ =~= "hidden = "@);
    assert("note"@ + " = "@ =~= "note = "@);
    let title = match b.title {
        Some(t) => t,
        None => ""@,
    };
    let l0 = "[checkpoint:"@ + b.id + "]"@;
    let l1 = "title"@ + " = "@ + title;
    let l2 = "hidden"@ + " = "@ + bool_text(b.hidden);
    let note = match b.note {
        Some(n) => seq!["note"@ + " = "@ + n],
        None => Seq::empty(),
    };
    let head = seq![l0, l1, l2];
    let e = seq![Seq::<char>::empty()];
    lemma_unlines_one(l0);
    lemma_unlines_one(l1);
    lemma_unlines_one(l2);
    assert(head =~= seq![l0] + seq![l1] + seq![l2]);
    lemma_unlines_concat(seq![l0] + seq![l1], seq![l2]);
    lemma_unlines_concat(seq![l0], seq![l1]);
    lemma_unlines_one(Seq::<char>::empty());
    lemma_unlines_concat(head, note);
    lemma_unlines_concat(head + note, e);
    lemma_unlines_concat(head + note + e, b.files);
    lemma_unlines_concat(head + note + e + b.files, e);
    lemma_files_text(b.files);
    let note_text = match b.note {
        Some(n) => "note = "@ + n + "\n"@,
        None => ""@,
    };
    match b.note {
        Some(n) => {
            lemma_unlines_one("note"@ + " = "@ + n);
            assert(unlines(note) =~= note_text);
        },
        None => {
            assert(unlines(note) =~= note_text);
        },
    }
    assert(unlines(e) =~= nl);
    let start = "[checkpoint:"@ + b.id + "]\n"@ + "title = "@ + title + "\n"@ + "hidden = "@
        + bool_text(b.hidden) + "\n"@;
    assert(start =~= unlines(head));
    assert(block_lines(b) =~= head + note + e + b.files + e);
    assert(block_text(b) =~= unlines(head) + unlines(note) + unlines(e) + unlines(b.files)
        + unlines(e));
}

proof fn lemma_read_files(
    ls: Seq<Seq<char>>,
    bs: Seq<BlockView>,
    files: Seq<Seq<char>>,
)
    requires
        says(ls, bs),
        bs.len() > 0,
        bs.last().files.len() == 0,
        forall|i: int| 0 <= i < files.len() ==> writable_file(#[trigger] files[i]),
        forall|i: int, j: int|
            0 <= i < j < files.len() ==> !path::same_path(
                #[trigger] files[i],
                #[trigger] files[j],
            ),
    ensures
        says(ls + files, bs.drop_last().push((BlockView { files, ..bs.last() }))),
    decreases files.len(),
{
    let done = bs.drop_last().push((BlockView { files, ..bs.last() }));
    if files.len() == 0 {
        assert(ls + files =~= ls);
        assert(files =~= bs.last().files);
        assert(done =~= bs);
    } else {
        let rest = files.drop_last();
        let f = files.last();
        assert(f == files[files.len() - 1]);
        assert forall|i: int| 0 <= i < rest.len() implies writable_file(#[trigger] rest[i]) by {
            assert(rest[i] == files[i]);
        }
        assert forall|i: int, j: int| 0 <= i < j < rest.len() implies !path::same_path(
            #[trigger] rest[i],
            #[trigger] rest[j],
        ) by {
            assert(rest[i] == files[i] && rest[j] == files[j]);
        }
        lemma_read_files(ls, bs, rest);
        let now = bs.drop_last().push((BlockView { files: rest, ..bs.last() }));
        lemma_trimmed(f);
        assert(!path::among(rest, f)) by {
            if path::among(rest, f) {
                let i = choose|i: int| 0 <= i < rest.len() && path::same_path(#[trigger] rest[i], f);
                assert(files[i] == rest[i]);
            }
        }
        assert(rest.push(f) =~= files);
        assert(now.drop_last().push((BlockView { files, ..bs.last() })) =~= done);
        assert(with_file(now.last(), f) == Ok::<BlockView, Seq<char>>(
            (BlockView { files, ..bs.last() }),
        ));
        lemma_next(ls + rest, now, f, done);
        assert((ls + rest).push(f) =~= ls + files);
    }
}

proof fn lemma_read_header(ls: Seq<Seq<char>>, bs: Seq<BlockView>, id: Seq<char>)
    requires
        says(ls, bs),
        tidy(id),
        !has_block(bs, id),
    ensures
        says(ls.push("[checkpoint:"@ + id + "]"@), bs.push(new_block(id))),
{
    let l = "[checkpoint:"@ + id + "]"@;
    lemma_header_line(id);
    assert(!is_space('['));
    lemma_trimmed(l);
    lemma_next(ls, bs, l, bs.push(new_block(id)));
}

proof fn lemma_read_title(
    ls: Seq<Seq<char>>,
    bs: Seq<BlockView>,
    b: BlockView,
    title: Option<Seq<char>>,
)
    requires
        says(ls, bs.push(b)),
        title is Some ==> tidy(title->Some_0),
    ensures
        says(
            ls.push(
                "title"@ + " = "@ + (match title {
                    Some(t) => t,
                    None => ""@,
                }),
            ),
            bs.push((BlockView { title, ..b })),
        ),
{
    reveal_strlit("title");
    reveal_strlit("");
    let value = match title {
        Some(t) => t,
        None => ""@,
    };
    assert(some_text(value) == title);
    lemma_read_field(ls, bs.push(b), "title"@, value, (BlockView { title, ..b }));
    assert(bs.push(b).drop_last() =~= bs);
}

proof fn lemma_read_hidden(ls: Seq<Seq<char>>, bs: Seq<BlockView>, b: BlockView, hidden: bool)
    requires
        says(ls, bs.push(b)),
    ensures
        says(
            ls.push("hidden"@ + " = "@ + bool_text(hidden)),
            bs.push((BlockView { hidden, ..b })),
        ),
{
    reveal_strlit("title");
    reveal_strlit("hidden");
    reveal_strlit("note");
    reveal_strlit("annotation");
    reveal_strlit("true");
    reveal_strlit("false");
    reveal_strlit("yes");
    assert("hidden"@.len() != "title"@.len());
    assert("hidden"@.len() != "note"@.len());
    assert("hidden"@.len() != "annotation"@.len());
    assert("false"@.len() != "true"@.len());
    assert("false"@.len() != "yes"@.len());
    assert(tidy(bool_text(hidden)));
    lemma_read_field(
        ls,
        bs.push(b),
        "hidden"@,
        bool_text(hidden),
        (BlockView { hidden, ..b }),
    );
    assert(bs.push(b).drop_last() =~= bs);
}

proof fn lemma_read_note(ls: Seq<Seq<char>>, bs: Seq<BlockView>, b: BlockView, n: Seq<char>)
    requires
        says(ls, bs.push(b)),
        tidy(n),
    ensures
        says(ls.push("note"@ + " = "@ + n), bs.push((BlockView { note: Some(n), ..b }))),
{
    reveal_strlit("title");
    reveal_strlit("note");
    assert("note"@.len() != "title"@.len());
    lemma_read_field(ls, bs.push(b), "note"@, n, (BlockView { note: Some(n), ..b }));
    assert(bs.push(b).drop_last() =~= bs);
}

/// The lines of a block before its files.
spec fn field_lines(b: BlockView) -> Seq<Seq<char>> {
    seq![
        "[checkpoint:"@ + b.id + "]"@,
        "title"@ + " = "@ + (match b.title {
            Some(t) => t,
            None => ""@,
        }),
        "hidden"@ + " = "@ + bool_text(b.hidden),
    ] + (match b.note {
        Some(n) => seq!["note"@ + " = "@ + n],
        None => Seq::empty(),
    })
}

proof fn lemma_read_fields(ls: Seq<Seq<char>>, bs: Seq<BlockView>, b: BlockView)
    requires
        says(ls, bs),
        writable_block(b),
        !has_block(bs, b.id),
    ensures
        says(ls + field_lines(b), bs.push((BlockView { files: Seq::empty(), ..b }))),
{
    let b0 = new_block(b.id);
    let b1 = BlockView { title: b.title, ..b0 };
    let b2 = BlockView { hidden: b.hidden, ..b1 };
    let b3 = BlockView { note: b.note, ..b2 };
    let title = match b.title {
        Some(t) => t,
        None => ""@,
    };
    let l0 = "[checkpoint:"@ + b.id + "]"@;
    let l1 = "title"@ + " = "@ + title;
    let l2 = "hidden"@ + " = "@ + bool_text(b.hidden);
    let ls0 = ls.push(l0);
    let ls1 = ls0.push(l1);
    let ls2 = ls1.push(l2);
    lemma_read_header(ls, bs, b.id);
    lemma_read_title(ls0, bs, b0, b.title);
    lemma_read_hidden(ls1, bs, b1, b.hidden);
    assert(b3 =~= (BlockView { files: Seq::empty(), ..b }));
    match b.note {
        Some(n) => {
            lemma_read_note(ls2, bs, b2, n);
            assert(ls + field_lines(b) =~= ls2.push("note"@ + " = "@ + n));
        },
        None => {
            assert(b3 =~= b2);
            assert(ls + field_lines(b) =~= ls2);
        },
    }
}

proof fn lemma_read_block(ls: Seq<Seq<char>>, bs: Seq<BlockView>, b: BlockView)
    requires
        says(ls, bs),
        writable_block(b),
        !has_block(bs, b.id),
    ensures
        says(ls + block_lines(b), bs.push(b)),
{
    let begun = BlockView { files: Seq::empty(), ..b };
    let e = Seq::<char>::empty();
    let head = field_lines(b);
    lemma_read_fields(ls, bs, b);
    lemma_skipped(ls + head, bs.push(begun), e);
    let ls4 = (ls + head).push(e);
    assert(bs.push(begun).last() == begun);
    lemma_read_files(ls4, bs.push(begun), b.files);
    assert(bs.push(begun).drop_last() =~= bs);
    assert((BlockView { files: b.files, ..begun }) =~= b);
    lemma_skipped(ls4 + b.files, bs.push(b), e);
    lemma_regroup(ls, head, b.files, e);
    assert(block_lines(b) == head + seq![e] + b.files + seq![e]);
}

proof fn lemma_regroup(
    ls: Seq<Seq<char>>,
    head: Seq<Seq<char>>,
    files: Seq<Seq<char>>,
    e: Seq<char>,
)
    ensures
        ((ls + head).push(e) + files).push(e) == ls + (head + seq![e] + files + seq![e]),
{
    assert(((ls + head).push(e) + files).push(e) =~= ls + (head + seq![e] + files + seq![e]));
}

proof fn lemma_bool_tidy(x: bool)
    ensures
        tidy(bool_text(x)),
{
    reveal_strlit("true");
    reveal_strlit("false");
}

proof fn lemma_title_plain(title: Option<Seq<char>>)
    requires
        title is Some ==> tidy(title->Some_0),
    ensures
        one_line(
            "title"@ + " = "@ + (match title {
                Some(t) => t,
                None => ""@,
            }),
        ),
{
    reveal_strlit("title");
    reveal_strlit("");
    match title {
        Some(t) => lemma_field_line("title"@, t),
        None => lemma_field_line("title"@, ""@),
    }
}

proof fn lemma_hidden_plain(hidden: bool)
    ensures
        one_line("hidden"@ + " = "@ + bool_text(hidden)),
{
    reveal_strlit("hidden");
    lemma_bool_tidy(hidden);
    lemma_field_line("hidden"@, bool_text(hidden));
}

proof fn lemma_note_plain(note: Seq<char>)
    requires
        tidy(note),
    ensures
        one_line("note"@ + " = "@ + note),
{
    reveal_strlit("note");
    lemma_field_line("note"@, note);
}

proof fn lemma_field_lines_plain(b: BlockView)
    requires
        writable_block(b),
    ensures
        forall|i: int| 0 <= i < field_lines(b).len() ==> one_line(#[trigger] field_lines(b)[i]),
{
    lemma_header_line(b.id);
    lemma_title_plain(b.title);
    lemma_hidden_plain(b.hidden);
    match b.note {
        Some(n) => lemma_note_plain(n),
        None => {},
    }
    let ls = field_lines(b);
    assert forall|i: int| 0 <= i < ls.len() implies one_line(#[trigger] ls[i]) by {
        if i == 0 {
            assert(ls[0] == "[checkpoint:"@ + b.id + "]"@);
        } else if i == 1 {
            assert(ls[1] == "title"@ + " = "@ + (match b.title {
                Some(t) => t,
                None => ""@,
            }));
        } else if i == 2 {
            assert(ls[2] == "hidden"@ + " = "@ + bool_text(b.hidden));
        } else {
            assert(ls[3] == "note"@ + " = "@ + b.note->Some_0);
        }
    }
}

proof fn lemma_block_lines_plain(b: BlockView)
    requires
        writable_block(b),
    ensures
        forall|i: int| 0 <= i < block_lines(b).len() ==> one_line(#[trigger] block_lines(b)[i]),
{
    lemma_field_lines_plain(b);
    let ls = block_lines(b);
    let head = field_lines(b);
    let h = head.len() as int;
    let e = Seq::<char>::empty();
    assert(ls == head + seq![e] + b.files + seq![e]);
    assert forall|i: int| 0 <= i < ls.len() implies one_line(#[trigger] ls[i]) by {
        if i < h {
            assert(ls[i] == head[i]);
        } else if i == h || i == h + 1 + b.files.len() {
            assert(ls[i] == e);
        } else {
            assert(ls[i] == b.files[i - h - 1]);
        }
    }
}

// ---------------------------------------------------------------------------
// The whole buffer
spec fn event_lines(blocks: Seq<BlockView>, e: TrailEventTypeView, n: int) -> Seq<Seq<char>> {
    match e {
        TrailEventTypeView::Commit { id, short_id, summary, author, is_merge } => seq![
            "# commit "@ + short_id + "  "@ + summary,
            Seq::<char>::empty(),
        ],
        TrailEventTypeView::Checkpoint { .. } => if 0 <= n < blocks.len() {
            block_lines(blocks[n])
        } else {
            Seq::empty()
        },
        _ => Seq::empty(),
    }
}

spec fn events_lines(blocks: Seq<BlockView>, events: Seq<TrailEventView>) -> Seq<Seq<char>>
    decreases events.len(),
{
    if events.len() == 0 {
        Seq::empty()
    } else {
        events_lines(blocks, events.drop_last()) + event_lines(
            blocks,
            events.last().event_type,
            checkpoint_count(events.drop_last()),
        )
    }
}

proof fn lemma_block_count(events: Seq<TrailEventView>)
    ensures
        blocks_of(events).len() == checkpoint_count(events),
    decreases events.len(),
{
    if events.len() > 0 {
        lemma_block_count(events.drop_last());
    }
}

proof fn lemma_blocks_prefix(events: Seq<TrailEventView>, k: int)
    requires
        0 <= k <= events.len(),
    ensures
        blocks_of(events.take(k)).len() <= blocks_of(events).len(),
        blocks_of(events).take(blocks_of(events.take(k)).len() as int) == blocks_of(events.take(k)),
    decreases events.len(),
{
    if k == events.len() {
        assert(events.take(k) =~= events);
        assert(blocks_of(events).take(blocks_of(events).len() as int) =~= blocks_of(events));
    } else {
        lemma_blocks_prefix(events.drop_last(), k);
        assert(events.drop_last().take(k) =~= events.take(k));
        let m = blocks_of(events.take(k)).len() as int;
        assert(blocks_of(events).take(m) =~= blocks_of(events.drop_last()).take(m));
    }
}

/// The lines of the first `k` events read as the blocks of those events.
proof fn lemma_read_events(ls: Seq<Seq<char>>, trail: TrailView, k: int)
    requires
        says(ls, Seq::empty()),
        writable(trail),
        0 <= k <= trail.events.len(),
    ensures
        ({
            let blocks = blocks_of(trail.events);
            let some = trail.events.take(k);
            let more = events_lines(blocks, some);
            &&& says(ls + more, blocks_of(some))
            &&& unlines(more) == events_text(blocks, some)
            &&& forall|i: int| 0 <= i < more.len() ==> one_line(#[trigger] more[i])
        }),
    decreases k,
{
    let blocks = blocks_of(trail.events);
    let some = trail.events.take(k);
    let more = events_lines(blocks, some);
    if k == 0 {
        assert(ls + more =~= ls);
        assert(blocks_of(some) =~= Seq::empty());
    } else {
        lemma_read_events(ls, trail, k - 1);
        let less = trail.events.take(k - 1);
        assert(some.drop_last() =~= less);
        let e = trail.events[k - 1];
        assert(some.last() == e);
        let before = events_lines(blocks, less);
        let n = checkpoint_count(less);
        let added = event_lines(blocks, e.event_type, n);
        lemma_unlines_concat(before, added);
        lemma_block_count(less);
        let bs = blocks_of(less);
        match e.event_type {
            TrailEventTypeView::Commit { id, short_id, summary, author, is_merge } => {
                reveal_strlit("# commit ");
                reveal_strlit("  ");
                reveal_strlit("\n\n");
                let l = "# commit "@ + short_id + "  "@ + summary;
                let nothing = Seq::<char>::empty();
                assert(l[0] == '#');
                assert forall|i: int| 0 <= i < l.len() implies l[i] != '\n' by {
                    if 9 <= i < 9 + short_id.len() {
                        assert(l[i] == short_id[i - 9]);
                    } else if i >= 11 + short_id.len() {
                        assert(l[i] == summary[i - 11 - short_id.len()]);
                    }
                }
                lemma_skipped(ls + before, bs, l);
                lemma_skipped((ls + before).push(l), bs, nothing);
                assert((ls + before).push(l).push(nothing) =~= ls + more);
                lemma_unlines_one(l);
                lemma_unlines_one(nothing);
                lemma_unlines_concat(seq![l], seq![nothing]);
                assert(seq![l] + seq![nothing] =~= added);
                assert(unlines(added) =~= l + "\n\n"@);
            },
            TrailEventTypeView::Checkpoint { .. } => {
                lemma_blocks_prefix(trail.events, k);
                lemma_block_count(some);
                assert(blocks.take(n + 1) == blocks_of(some));
                assert(blocks_of(some)[n] == blocks[n]);
                let b = blocks[n];
                assert(b == block_of(e.event_type));
                assert(!has_block(bs, b.id)) by {
                    if has_block(bs, b.id) {
                        let i = choose|i: int| 0 <= i < bs.len() && (#[trigger] bs[i]).id == b.id;
                        assert(blocks_of(some)[i] == bs[i]);
                        assert(blocks.take(n + 1)[i] == blocks[i]);
                        assert(blocks[i].id != blocks[n].id);
                    }
                }
                assert(writable_block(blocks[n]));
                lemma_read_block(ls + before, bs, b);
                lemma_block_text(b);
                lemma_block_lines_plain(b);
                assert((ls + before) + block_lines(b) =~= ls + more);
            },
            _ => {
                assert(added =~= Seq::empty());
                assert(ls + more =~= ls + before);
                assert(unlines(added) =~= Seq::empty());
            },
        }
        assert(unlines(more) =~= events_text(blocks, some));
        assert forall|i: int| 0 <= i < more.len() implies one_line(#[trigger] more[i]) by {
            if i < before.len() {
                assert(more[i] == before[i]);
            } else {
                assert(more[i] == added[i - before.len()]);
            }
        }
    }
}

/// The comment lines at the top of the buffer.
spec fn top_lines(label: Seq<char>) -> Seq<Seq<char>> {
    seq![
        "# trail://"@ + label,
        "# Editing this file changes Trail metadata."@,
        "# File contents and Git history are not modified."@,
        "#"@,
        "# [checkpoint:ID] starts a checkpoint. Fields: title, hidden (true/false), note."@,
        "# Move a file line into another checkpoint to regroup it. Reorder the"@,
        "# checkpoint blocks to change their reading order. Files cannot be removed"@,
        "# or invented. Lines starting with # are ignored; commits are context only."@,
        Seq::<char>::empty(),
    ]
}

#[verifier::rlimit(50)]
#[verifier::spinoff_prover]
proof fn lemma_top_text(label: Seq<char>)
    ensures
        unlines(top_lines(label)) == "# trail://"@ + label + "\n"@ + HEADER@ + "\n"@,
{
    reveal_strlit("\n");
    let nl = seq!['\n'];
    assert("\n"@ =~= nl);
    let t = top_lines(label);
    reveal_with_fuel(unlines, 10);
    assert(t.drop_last() =~= t.take(8));
    assert(t.take(8).drop_last() =~= t.take(7));
    assert(t.take(7).drop_last() =~= t.take(6));
    assert(t.take(6).drop_last() =~= t.take(5));
    assert(t.take(5).drop_last() =~= t.take(4));
    assert(t.take(4).drop_last() =~= t.take(3));
    assert(t.take(3).drop_last() =~= t.take(2));
    assert(t.take(2).drop_last() =~= t.take(1));
    assert(t.take(1).drop_last() =~= Seq::empty());
    lemma_header_text();
    let h = t[1] + nl + t[2] + nl + t[3] + nl + t[4] + nl + t[5] + nl + t[6] + nl + t[7] + nl;
    assert(unlines(t) =~= t[0] + nl + h + nl);
}

#[verifier::rlimit(50)]
#[verifier::spinoff_prover]
proof fn lemma_header_text()
    ensures
        ({
            let nl = seq!['\n'];
            let t = top_lines(Seq::empty());
            HEADER@ == t[1] + nl + t[2] + nl + t[3] + nl + t[4] + nl + t[5] + nl + t[6] + nl + t[7]
                + nl
        }),
{
    reveal_strlit(
        "# Editing this file changes Trail metadata.\n# File contents and Git history are not modified.\n#\n# [checkpoint:ID] starts a checkpoint. Fields: title, hidden (true/false), note.\n# Move a file line into another checkpoint to regroup it. Reorder the\n# checkpoint blocks to change their reading order. Files cannot be removed\n# or invented. Lines starting with # are ignored; commits are context only.\n",
    );
    reveal_strlit("# Editing this file changes Trail metadata.");
    reveal_strlit("# File contents and Git history are not modified.");
    reveal_strlit("#");
    reveal_strlit(
        "# [checkpoint:ID] starts a checkpoint. Fields: title, hidden (true/false), note.",
    );
    reveal_strlit("# Move a file line into another checkpoint to regroup it. Reorder the");
    reveal_strlit("# checkpoint blocks to change their reading order. Files cannot be removed");
    reveal_strlit("# or invented. Lines starting with # are ignored; commits are context only.");
    let nl = seq!['\n'];
    let t = top_lines(Seq::empty());
    assert(HEADER@ =~= t[1] + nl + t[2] + nl + t[3] + nl + t[4] + nl + t[5] + nl + t[6] + nl + t[7]
        + nl);
}

proof fn lemma_top_lines(label: Seq<char>)
    requires
        one_line(label),
    ensures
        forall|i: int|
            0 <= i < 9 ==> one_line(#[trigger] top_lines(label)[i]) && (top_lines(label)[i].len()
                == 0 || top_lines(label)[i][0] == '#'),
{
    reveal_strlit("# trail://");
    reveal_strlit("# Editing this file changes Trail metadata.");
    reveal_strlit("# File contents and Git history are not modified.");
    reveal_strlit("#");
    reveal_strlit(
        "# [checkpoint:ID] starts a checkpoint. Fields: title, hidden (true/false), note.",
    );
    reveal_strlit("# Move a file line into another checkpoint to regroup it. Reorder the");
    reveal_strlit("# checkpoint blocks to change their reading order. Files cannot be removed");
    reveal_strlit("# or invented. Lines starting with # are ignored; commits are context only.");
    let l = "# trail://"@ + label;
    assert forall|i: int| 0 <= i < l.len() implies l[i] != '\n' by {
        if i >= 10 {
            assert(l[i] == label[i - 10]);
        }
    }
}

proof fn lemma_read_top(label: Seq<char>, k: int)
    requires
        one_line(label),
        0 <= k <= 9,
    ensures
        says(top_lines(label).take(k), Seq::empty()),
    decreases k,
{
    let t = top_lines(label);
    if k > 0 {
        lemma_read_top(label, k - 1);
        lemma_top_lines(label);
        assert(one_line(t[k - 1]));
        lemma_skipped(t.take(k - 1), Seq::empty(), t[k - 1]);
        assert(t.take(k - 1).push(t[k - 1]) =~= t.take(k));
    } else {
        reveal(says);
    }
}

/// Reading back the unedited buffer of a trail gives the blocks of the trail:
/// every id, title, visibility, note and file line, in order.
pub proof fn lemma_unedited_buffer_reads_back(trail: TrailView)
    requires
        writable(trail),
    ensures
        parsed(rendered(document_of(trail), trail)) == Ok::<Seq<BlockView>, TrailErrorView>(
            document_of(trail).blocks,
        ),
{
    reveal(says);
    let label = trail.repository.head.label_text();
    let top = top_lines(label);
    let blocks = blocks_of(trail.events);
    lemma_top_text(label);
    lemma_top_lines(label);
    lemma_read_top(label, 9);
    assert(top.take(9) =~= top);
    let out = rendered(document_of(trail), trail);
    if blocks.len() == 0 {
        reveal_strlit("# No recorded checkpoints on this branch. Run `trail start` first.\n");
        reveal_strlit("# No recorded checkpoints on this branch. Run `trail start` first.");
        let l = "# No recorded checkpoints on this branch. Run `trail start` first."@;
        assert("# No recorded checkpoints on this branch. Run `trail start` first.\n"@ =~= l
            + seq!['\n']);
        lemma_skipped(top, Seq::empty(), l);
        let all = top.push(l);
        assert(all =~= top + seq![l]);
        lemma_unlines_concat(top, seq![l]);
        lemma_unlines_one(l);
        assert(out =~= unlines(all));
        assert forall|i: int| 0 <= i < all.len() implies one_line(#[trigger] all[i]) by {
            if i < 9 {
                assert(all[i] == top[i]);
            }
        }
        lemma_lines_unlines(all);
        lemma_chomped(all);
        assert(blocks =~= Seq::empty());
    } else {
        let n = trail.events.len() as int;
        lemma_read_events(top, trail, n);
        assert(trail.events.take(n) =~= trail.events);
        let more = events_lines(blocks, trail.events);
        let all = top + more;
        lemma_unlines_concat(top, more);
        assert(out =~= unlines(all));
        assert forall|i: int| 0 <= i < all.len() implies one_line(#[trigger] all[i]) by {
            if i < 9 {
                assert(all[i] == top[i]);
            } else {
                assert(all[i] == more[i - 9]);
            }
        }
        lemma_lines_unlines(all);
        lemma_chomped(all);
    }
}

/// One block of a buffer reads back as itself.
pub proof fn lemma_block_reads_back(b: BlockView)
    requires
        writable_block(b),
    ensures
        parsed(block_text(b)) == Ok::<Seq<BlockView>, TrailErrorView>(seq![b]),
{
    reveal(says);
    let none = Seq::<BlockView>::empty();
    let ls = block_lines(b);
    assert(lines_read(Seq::empty()) == Ok::<Seq<BlockView>, TrailErrorView>(none));
    lemma_read_block(Seq::empty(), none, b);
    assert(Seq::<Seq<char>>::empty() + ls =~= ls);
    assert(none.push(b) =~= seq![b]);
    lemma_block_text(b);
    lemma_block_lines_plain(b);
    lemma_lines_unlines(ls);
    lemma_chomped(ls);
}

} // verus!
