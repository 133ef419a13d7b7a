//! `trail edit`: the Development Trail as an editable text buffer.
//!
//! Like oil.nvim treats a directory as a buffer, this renders the trail's
//! metadata as plain text, hands it to `$VISUAL` / `$EDITOR`, and parses the
//! result back into the metadata overlay. Only metadata changes: the raw
//! session logs, the files and Git history are never written.

pub mod editor;
pub mod laws;
pub mod merge;
pub mod merge_laws;
pub mod open;
pub mod open_laws;
pub mod roundtrip;

pub use merge::{describe, diff, EditSummary};
pub use open::{apply, open_at, open_file, open_selected, scratch_path};

use crate::data::Dup;
use crate::error::{outcome, TrailError, TrailErrorView};
use crate::map::TextMap;
use crate::path;
use crate::recorder::checkpoint::FileChangeView;
use crate::recorder::metadata::MetadataView;
use crate::text;
use crate::trail::{Trail, TrailView};
use crate::trail::event::{TrailEvent, TrailEventType, TrailEventTypeView, TrailEventView};
use vstd::prelude::*;

verus! {

pub const HEADER: &'static str =
    "# Editing this file changes Trail metadata.\n# File contents and Git history are not modified.\n#\n# [checkpoint:ID] starts a checkpoint. Fields: title, hidden (true/false), note.\n# Move a file line into another checkpoint to regroup it. Reorder the\n# checkpoint blocks to change their reading order. Files cannot be removed\n# or invented. Lines starting with # are ignored; commits are context only.\n";

/// One checkpoint as it appears in the buffer.
#[derive(Debug, Clone, PartialEq, Eq)]
pub struct Block {
    pub id: String,
    pub title: Option<String>,
    pub hidden: bool,
    pub note: Option<String>,
    pub files: Vec<String>,
}

/// The editable view of a trail: its checkpoints, in reading order, with
/// where every file change originally came from.
#[derive(Debug, Clone, PartialEq, Eq)]
pub struct Document {
    pub blocks: Vec<Block>,
    /// For each block id, the raw origin of every file line (same order).
    pub origins: TextMap<Vec<String>>,
}

/// What a [`Block`] denotes.
#[verifier::ext_equal]
pub struct BlockView {
    pub id: Seq<char>,
    pub title: Option<Seq<char>>,
    pub hidden: bool,
    pub note: Option<Seq<char>>,
    pub files: Seq<Seq<char>>,
}

impl DeepView for Block {
    type V = BlockView;

    open spec fn deep_view(&self) -> BlockView {
        BlockView {
            id: self.id.deep_view(),
            title: self.title.deep_view(),
            hidden: self.hidden.deep_view(),
            note: self.note.deep_view(),
            files: self.files.deep_view(),
        }
    }
}

impl Dup for Block {
    fn dup(&self) -> (r: Block) {
        Block {
            id: self.id.dup(),
            title: self.title.dup(),
            hidden: self.hidden.dup(),
            note: self.note.dup(),
            files: self.files.dup(),
        }
    }
}

/// What a [`Document`] denotes.
#[verifier::ext_equal]
pub struct DocumentView {
    pub blocks: Seq<BlockView>,
    pub origins: Map<Seq<char>, Seq<Seq<char>>>,
}

impl DeepView for Document {
    type V = DocumentView;

    open spec fn deep_view(&self) -> DocumentView {
        DocumentView {
            blocks: self.blocks.deep_view(),
            origins: self.origins.deep_view(),
        }
    }
}

impl Dup for Document {
    fn dup(&self) -> (r: Document) {
        Document {
            blocks: self.blocks.dup(),
            origins: self.origins.dup(),
        }
    }
}

// ---------------------------------------------------------------------------
// The buffer
/// A checkpoint event as a block.
pub open spec fn block_of(e: TrailEventTypeView) -> BlockView
    recommends
        e is Checkpoint,
{
    BlockView {
        id: e->Checkpoint_id,
        title: e->Checkpoint_title,
        hidden: e->Checkpoint_hidden,
        note: e->annotation,
        files: e->changes.map_values(|c: FileChangeView| c.path),
    }
}

/// The blocks of a trail, in its order.
pub open spec fn blocks_of(events: Seq<TrailEventView>) -> Seq<BlockView>
    decreases events.len(),
{
    if events.len() == 0 {
        Seq::empty()
    } else if events.last().event_type is Checkpoint {
        blocks_of(events.drop_last()).push(block_of(events.last().event_type))
    } else {
        blocks_of(events.drop_last())
    }
}

/// The origins of the changes behind each block's file lines.
pub open spec fn origins_of(events: Seq<TrailEventView>) -> Map<Seq<char>, Seq<Seq<char>>>
    decreases events.len(),
{
    if events.len() == 0 {
        Map::empty()
    } else {
        let e = events.last().event_type;
        if e is Checkpoint {
            origins_of(events.drop_last()).insert(
                e->Checkpoint_id,
                e->changes.map_values(
                    |c: FileChangeView| c.origin,
                ),
            )
        } else {
            origins_of(events.drop_last())
        }
    }
}

pub open spec fn document_of(trail: TrailView) -> DocumentView {
    DocumentView { blocks: blocks_of(trail.events), origins: origins_of(trail.events) }
}

pub open spec fn bool_text(b: bool) -> Seq<char> {
    if b {
        "true"@
    } else {
        "false"@
    }
}

pub open spec fn files_text(files: Seq<Seq<char>>) -> Seq<char>
    decreases files.len(),
{
    if files.len() == 0 {
        Seq::empty()
    } else {
        files_text(files.drop_last()) + files.last() + "\n"@
    }
}

/// One block of the buffer.
pub open spec fn block_text(b: BlockView) -> Seq<char> {
    "[checkpoint:"@ + b.id + "]\n"@ + "title = "@ + (match b.title {
        Some(t) => t,
        None => ""@,
    }) + "\n"@ + "hidden = "@ + bool_text(b.hidden) + "\n"@ + (match b.note {
        Some(n) => "note = "@ + n + "\n"@,
        None => ""@,
    }) + "\n"@ + files_text(b.files) + "\n"@
}

/// How many of some events are checkpoints.
pub open spec fn checkpoint_count(events: Seq<TrailEventView>) -> int
    decreases events.len(),
{
    if events.len() == 0 {
        0
    } else if events.last().event_type is Checkpoint {
        checkpoint_count(events.drop_last()) + 1
    } else {
        checkpoint_count(events.drop_last())
    }
}

/// What one event adds to the buffer: a commit a comment, the `n`-th
/// checkpoint the `n`-th block.
pub open spec fn event_text(blocks: Seq<BlockView>, e: TrailEventTypeView, n: int) -> Seq<char> {
    match e {
        TrailEventTypeView::Commit { id, short_id, summary, author, is_merge } => "# commit "@
            + short_id + "  "@ + summary + "\n\n"@,
        TrailEventTypeView::Checkpoint { .. } => if 0 <= n < blocks.len() {
            block_text(blocks[n])
        } else {
            Seq::empty()
        },
        _ => Seq::empty(),
    }
}

pub open spec fn events_text(blocks: Seq<BlockView>, events: Seq<TrailEventView>) -> Seq<char>
    decreases events.len(),
{
    if events.len() == 0 {
        Seq::empty()
    } else {
        events_text(blocks, events.drop_last()) + event_text(
            blocks,
            events.last().event_type,
            checkpoint_count(events.drop_last()),
        )
    }
}

/// The buffer of a document.
pub open spec fn rendered(doc: DocumentView, trail: TrailView) -> Seq<char> {
    "# trail://"@ + trail.repository.head.label_text() + "\n"@ + HEADER@ + "\n"@ + (
    if doc.blocks.len() == 0 {
        "# No recorded checkpoints on this branch. Run `trail start` first.\n"@
    } else {
        events_text(doc.blocks, trail.events)
    })
}

impl Document {
    /// Extract the editable state from a built trail (overlay already applied).
    pub fn from_trail(trail: &Trail) -> (r: Document)
        ensures
            r.deep_view() == document_of(trail.deep_view()),
    {
        let mut blocks: Vec<Block> = Vec::new();
        let mut origins: TextMap<Vec<String>> = TextMap::new();
        let ghost all = trail.events.deep_view();
        let mut k: usize = 0;
        assert(blocks.deep_view() =~= blocks_of(all.take(0)));
        while k < trail.events.len()
            invariant
                k <= trail.events.len(),
                all == trail.events.deep_view(),
                blocks.deep_view() == blocks_of(all.take(k as int)),
                origins.deep_view() == origins_of(all.take(k as int)),
            decreases trail.events.len() - k,
        {
            proof {
                assert(all.take(k + 1).drop_last() =~= all.take(k as int));
                assert(all.take(k + 1).last() == all[k as int]);
            }
            let event: &TrailEvent = &trail.events[k];
            let ghost e = event.deep_view().event_type;
            match &event.event_type {
                TrailEventType::Checkpoint {
                    id,
                    session_id: _,
                    title,
                    annotation,
                    bulk: _,
                    hidden,
                    boundary: _,
                    commit: _,
                    attachment: _,
                    changes,
                } => {
                    let mut files: Vec<String> = Vec::new();
                    let mut from: Vec<String> = Vec::new();
                    let mut j: usize = 0;
                    let ghost cs = changes.deep_view();
                    while j < changes.len()
                        invariant
                            j <= changes.len(),
                            j == files.len(),
                            j == from.len(),
                            cs == changes.deep_view(),
                            forall|i: int| 0 <= i < j ==> (#[trigger] files[i])@ == cs[i].path,
                            forall|i: int| 0 <= i < j ==> (#[trigger] from[i])@ == cs[i].origin,
                        decreases changes.len() - j,
                    {
                        files.push(changes[j].path.dup());
                        from.push(changes[j].origin.dup());
                        j += 1;
                    }
                    assert(files.deep_view() =~= block_of(e).files);
                    assert(from.deep_view() =~= cs.map_values(
                        |c: FileChangeView| c.origin,
                    ));
                    origins.insert(id.dup(), from);
                    let b = Block {
                        id: id.dup(),
                        title: title.dup(),
                        hidden: *hidden,
                        note: annotation.dup(),
                        files,
                    };
                    assert(b.deep_view() =~= block_of(e));
                    let ghost was = blocks.deep_view();
                    blocks.push(b);
                    assert(blocks.deep_view() =~= was.push(block_of(e)));
                },
                _ => {},
            }
            k += 1;
        }
        assert(all.take(k as int) =~= all);
        Document { blocks, origins }
    }

    /// Render the buffer. Commits are interleaved as comments for context.
    pub fn render(&self, trail: &Trail) -> (r: String)
        ensures
            r@ == rendered(self.deep_view(), trail.deep_view()),
    {
        let mut out: String = text::cat3("# trail://", &trail.repository.head.label(), "\n");
        out.append(HEADER);
        out.append("\n");
        if self.blocks.len() == 0 {
            out.append("# No recorded checkpoints on this branch. Run `trail start` first.\n");
            return out;
        }
        let ghost start = out@;
        let ghost all = trail.events.deep_view();
        let ghost bs = self.blocks.deep_view();
        let mut next: usize = 0;
        let mut k: usize = 0;
        assert(start + events_text(bs, all.take(0)) =~= start);
        while k < trail.events.len()
            invariant
                k <= trail.events.len(),
                next <= k,
                all == trail.events.deep_view(),
                bs == self.blocks.deep_view(),
                next == checkpoint_count(all.take(k as int)),
                out@ == start + events_text(bs, all.take(k as int)),
            decreases trail.events.len() - k,
        {
            let ghost was = out@;
            proof {
                assert(all.take(k + 1).drop_last() =~= all.take(k as int));
                assert(all.take(k + 1).last() == all[k as int]);
            }
            match &trail.events[k].event_type {
                TrailEventType::Commit { id: _, short_id, summary, author: _, is_merge: _ } => {
                    out.append(&text::cat5("# commit ", short_id, "  ", summary, "\n\n"));
                },
                TrailEventType::Checkpoint { .. } => {
                    if next < self.blocks.len() {
                        out.append(&render_block(&self.blocks[next]));
                    }
                    next = next + 1;
                },
                _ => {},
            }
            assert(out@ =~= start + events_text(bs, all.take(k + 1)));
            k += 1;
        }
        assert(all.take(k as int) =~= all);
        assert(out@ =~= rendered(self.deep_view(), trail.deep_view()));
        out
    }
}

fn render_block(block: &Block) -> (r: String)
    ensures
        r@ == block_text(block.deep_view()),
{
    let mut out: String = text::cat4("[checkpoint:", &block.id, "]\n", "title = ");
    match &block.title {
        Some(t) => out.append(t),
        None => out.append(""),
    }
    out.append("\n");
    out.append("hidden = ");
    out.append(
        if block.hidden {
            "true"
        } else {
            "false"
        },
    );
    out.append("\n");
    match &block.note {
        Some(note) => out.append(&text::cat3("note = ", note, "\n")),
        None => out.append(""),
    }
    out.append("\n");
    let ghost start = out@;
    let ghost all = block.files.deep_view();
    let mut k: usize = 0;
    assert(start + files_text(all.take(0)) =~= start);
    while k < block.files.len()
        invariant
            k <= block.files.len(),
            all == block.files.deep_view(),
            out@ == start + files_text(all.take(k as int)),
        decreases block.files.len() - k,
    {
        proof {
            assert(all.take(k + 1).drop_last() =~= all.take(k as int));
            assert(all.take(k + 1).last() == block.files[k as int]@);
        }
        out.append(&block.files[k]);
        out.append("\n");
        assert(out@ =~= start + files_text(all.take(k + 1)));
        k += 1;
    }
    assert(all.take(k as int) =~= all);
    out.append("\n");
    out
}

// ---------------------------------------------------------------------------
// Reading the buffer
pub open spec fn invalid_at(line: nat, message: Seq<char>) -> TrailErrorView {
    TrailErrorView::InvalidEdit("line "@ + text::decimal(line) + ": "@ + message)
}

pub open spec fn is_bare(key: Seq<char>) -> bool {
    key.len() > 0 && forall|i: int|
        0 <= i < key.len() ==> text::is_alphanumeric(#[trigger] key[i]) || key[i] == '_'
}

/// `key = value` where key is a bare identifier.
pub open spec fn field_of(line: Seq<char>) -> Option<(Seq<char>, Seq<char>)> {
    match text::split_once(line, '=') {
        Some((key, value)) => if is_bare(text::trim(key)) {
            Some((text::trim(key), text::trim(value)))
        } else {
            None
        },
        None => None,
    }
}

pub open spec fn some_text(value: Seq<char>) -> Option<Seq<char>> {
    if value.len() == 0 {
        None
    } else {
        Some(value)
    }
}

/// The id in a section header, read from what follows its opening bracket; or
/// else what is wrong with it.
pub open spec fn header_id(rest: Seq<char>) -> Result<Seq<char>, Seq<char>> {
    match text::strip_suffix(rest, "]"@) {
        None => Err("unterminated section header"@),
        Some(inner) => match text::split_once(inner, ':') {
            None => Err("expected [checkpoint:ID]"@),
            Some((kind, id)) => if kind == "commit"@ {
                Err("commits are shown as comments and cannot be edited here"@)
            } else if kind != "checkpoint"@ {
                Err("unknown section kind '"@ + kind + "'"@)
            } else if text::trim(id).len() == 0 {
                Err("missing checkpoint id"@)
            } else {
                Ok(text::trim(id))
            },
        },
    }
}

pub open spec fn has_block(blocks: Seq<BlockView>, id: Seq<char>) -> bool {
    exists|i: int| 0 <= i < blocks.len() && (#[trigger] blocks[i]).id == id
}

/// A block that holds nothing yet.
pub open spec fn new_block(id: Seq<char>) -> BlockView {
    BlockView { id, title: None, hidden: false, note: None, files: Seq::empty() }
}

/// A block with one field set; or else what is wrong with the field.
pub open spec fn with_field(block: BlockView, key: Seq<char>, value: Seq<char>) -> Result<
    BlockView,
    Seq<char>,
> {
    if key == "title"@ {
        Ok(BlockView { title: some_text(value), ..block })
    } else if key == "note"@ || key == "annotation"@ {
        Ok(BlockView { note: some_text(value), ..block })
    } else if key == "hidden"@ {
        if value == "true"@ || value == "yes"@ {
            Ok(BlockView { hidden: true, ..block })
        } else if value == "false"@ || value == "no"@ || value.len() == 0 {
            Ok(BlockView { hidden: false, ..block })
        } else {
            Err("hidden must be true or false, got '"@ + value + "'"@)
        }
    } else {
        Err("unknown field '"@ + key + "'"@)
    }
}

/// The file a line names. A path that would otherwise read as something else
/// can be prefixed with `./`.
pub open spec fn file_of(line: Seq<char>) -> Seq<char> {
    match text::strip_prefix(line, "./"@) {
        Some(rest) if rest.len() > 0 => rest,
        _ => line,
    }
}

/// A block with one more file; or else what is wrong with it.
pub open spec fn with_file(block: BlockView, file: Seq<char>) -> Result<BlockView, Seq<char>> {
    if path::among(block.files, file) {
        Err(file + " is listed twice in checkpoint "@ + block.id)
    } else {
        Ok(BlockView { files: block.files.push(file), ..block })
    }
}

/// The blocks once line number `no` is read: blank lines and comments add
/// nothing, a header starts a block, anything else belongs to the last one.
pub open spec fn line_read(blocks: Seq<BlockView>, no: nat, raw: Seq<char>) -> Result<
    Seq<BlockView>,
    TrailErrorView,
> {
    let line = text::trim_start(text::trim_end(raw));
    if line.len() == 0 || line[0] == '#' {
        Ok(blocks)
    } else if line[0] == '[' {
        match header_id(line.skip(1)) {
            Err(m) => Err(invalid_at(no, m)),
            Ok(id) => if has_block(blocks, id) {
                Err(invalid_at(no, "checkpoint "@ + id + " appears twice"@))
            } else {
                Ok(blocks.push(new_block(id)))
            },
        }
    } else if blocks.len() == 0 {
        Err(invalid_at(no, "content before the first [checkpoint:ID] header"@))
    } else {
        let read = match field_of(line) {
            Some((key, value)) => with_field(blocks.last(), key, value),
            None => with_file(blocks.last(), file_of(line)),
        };
        match read {
            Ok(block) => Ok(blocks.drop_last().push(block)),
            Err(m) => Err(invalid_at(no, m)),
        }
    }
}

/// The blocks that some lines describe, or the first error in them.
pub open spec fn lines_read(lines: Seq<Seq<char>>) -> Result<Seq<BlockView>, TrailErrorView>
    decreases lines.len(),
{
    if lines.len() == 0 {
        Ok(Seq::empty())
    } else {
        match lines_read(lines.drop_last()) {
            Ok(blocks) => line_read(blocks, lines.len(), lines.last()),
            Err(e) => Err(e),
        }
    }
}

/// What a buffer says.
pub open spec fn parsed(text: Seq<char>) -> Result<Seq<BlockView>, TrailErrorView> {
    lines_read(text::lines(text))
}

fn invalid(line: usize, message: &str) -> (r: TrailError)
    ensures
        r.deep_view() == invalid_at(line as nat, message@),
{
    TrailError::InvalidEdit(
        text::cat4("line ", &text::decimal_of(line as u64), ": ", message),
    )
}

fn bare(key: &str) -> (r: bool)
    ensures
        r == is_bare(key@),
{
    let v: Vec<char> = text::chars_of(key);
    let mut k: usize = 0;
    while k < v.len()
        invariant
            k <= v.len(),
            v@ == key@,
            forall|i: int|
                0 <= i < k ==> text::is_alphanumeric(#[trigger] key@[i]) || key@[i] == '_',
        decreases v.len() - k,
    {
        let c: char = v[k];
        let fine: bool = ('0' <= c && c <= '9') || ('a' <= c && c <= 'z') || ('A' <= c && c <= 'Z')
            || c == '_';
        if !fine {
            assert(!(text::is_alphanumeric(key@[k as int]) || key@[k as int] == '_'));
            return false;
        }
        k += 1;
    }
    v.len() > 0
}

/// `key = value` where key is a bare identifier. A path that reads so can be
/// prefixed with "./".
fn split_field<'a>(line: &'a str) -> (r: Option<(&'a str, &'a str)>)
    ensures
        r.deep_view() == field_of(line@),
{
    match text::split_once_of(line, '=') {
        Some((key, value)) => {
            let key: &str = text::trim_of(key);
            if bare(key) {
                Some((key, text::trim_of(value)))
            } else {
                None
            }
        },
        None => None,
    }
}

fn non_empty(value: &str) -> (r: Option<String>)
    ensures
        r.deep_view() == some_text(value@),
{
    if value.unicode_len() == 0 {
        None
    } else {
        Some(value.to_owned())
    }
}

fn read_header(rest: &str) -> (r: Result<String, String>)
    ensures
        match r {
            Ok(id) => header_id(rest@) == Ok::<Seq<char>, Seq<char>>(id@),
            Err(m) => header_id(rest@) == Err::<Seq<char>, Seq<char>>(m@),
        },
{
    match text::strip_suffix_of(rest, "]") {
        None => Err("unterminated section header".to_owned()),
        Some(inner) => match text::split_once_of(inner, ':') {
            None => Err("expected [checkpoint:ID]".to_owned()),
            Some((kind, id)) => {
                if text::same(kind, "commit") {
                    return Err("commits are shown as comments and cannot be edited here".to_owned());
                }
                if !text::same(kind, "checkpoint") {
                    return Err(text::cat3("unknown section kind '", kind, "'"));
                }
                let id: &str = text::trim_of(id);
                if id.unicode_len() == 0 {
                    return Err("missing checkpoint id".to_owned());
                }
                Ok(id.to_owned())
            },
        },
    }
}

pub(crate) fn known_block(blocks: &Vec<Block>, id: &str) -> (r: bool)
    ensures
        r == has_block(blocks.deep_view(), id@),
{
    let ghost all = blocks.deep_view();
    let mut k: usize = 0;
    while k < blocks.len()
        invariant
            k <= blocks.len(),
            all == blocks.deep_view(),
            forall|i: int| 0 <= i < k ==> (#[trigger] all[i]).id != id@,
        decreases blocks.len() - k,
    {
        assert(all[k as int].id == blocks[k as int].id@);
        if text::same(&blocks[k].id, id) {
            return true;
        }
        k += 1;
    }
    false
}

/// Sets one field of a block; on an error the block is as it was.
fn set_field(block: &mut Block, key: &str, value: &str) -> (r: Result<(), String>)
    ensures
        match r {
            Ok(_) => with_field(old(block).deep_view(), key@, value@) == Ok::<
                BlockView,
                Seq<char>,
            >(final(block).deep_view()),
            Err(m) => with_field(old(block).deep_view(), key@, value@) == Err::<
                BlockView,
                Seq<char>,
            >(m@),
        },
{
    let ghost was = block.deep_view();
    if text::same(key, "title") {
        block.title = non_empty(value);
        assert(block.deep_view() =~= (BlockView { title: some_text(value@), ..was }));
        Ok(())
    } else if text::same(key, "note") || text::same(key, "annotation") {
        block.note = non_empty(value);
        assert(block.deep_view() =~= (BlockView { note: some_text(value@), ..was }));
        Ok(())
    } else if text::same(key, "hidden") {
        if text::same(value, "true") || text::same(value, "yes") {
            block.hidden = true;
            assert(block.deep_view() =~= (BlockView { hidden: true, ..was }));
            Ok(())
        } else if text::same(value, "false") || text::same(value, "no") || value.unicode_len()
            == 0 {
            block.hidden = false;
            assert(block.deep_view() =~= (BlockView { hidden: false, ..was }));
            Ok(())
        } else {
            Err(text::cat3("hidden must be true or false, got '", value, "'"))
        }
    } else {
        Err(text::cat3("unknown field '", key, "'"))
    }
}

fn add_file(block: &mut Block, line: &str) -> (r: Result<(), String>)
    ensures
        match r {
            Ok(_) => with_file(old(block).deep_view(), file_of(line@)) == Ok::<
                BlockView,
                Seq<char>,
            >(final(block).deep_view()),
            Err(m) => with_file(old(block).deep_view(), file_of(line@)) == Err::<
                BlockView,
                Seq<char>,
            >(m@),
        },
{
    let ghost was = block.deep_view();
    let mut file: &str = line;
    match text::strip_prefix_of(line, "./") {
        Some(rest) => {
            if rest.unicode_len() > 0 {
                file = rest;
            }
        },
        None => {},
    }
    assert(file@ == file_of(line@));
    if path::is_among(&block.files, file) {
        return Err(text::cat3(file, " is listed twice in checkpoint ", &block.id));
    }
    block.files.push(file.to_owned());
    assert(block.files.deep_view() =~= was.files.push(file@));
    assert(block.deep_view() =~= (BlockView { files: was.files.push(file@), ..was }));
    Ok(())
}

/// Reads one line into the blocks.
fn read_line(blocks: &mut Vec<Block>, no: usize, raw: &str) -> (r: Result<(), TrailError>)
    ensures
        match r {
            Ok(_) => line_read(old(blocks).deep_view(), no as nat, raw@) == Ok::<
                Seq<BlockView>,
                TrailErrorView,
            >(final(blocks).deep_view()),
            Err(e) => line_read(old(blocks).deep_view(), no as nat, raw@) == Err::<
                Seq<BlockView>,
                TrailErrorView,
            >(e.deep_view()),
        },
{
    let ghost was = blocks.deep_view();
    let line: &str = text::trim_start_of(text::trim_end_of(raw));
    let len: usize = line.unicode_len();
    if len == 0 || line.get_char(0) == '#' {
        return Ok(());
    }
    if line.get_char(0) == '[' {
        assert(line@.subrange(1, len as int) =~= line@.skip(1));
        match read_header(line.substring_char(1, len)) {
            Err(m) => {
                return Err(invalid(no, &m));
            },
            Ok(id) => {
                if known_block(blocks, &id) {
                    return Err(invalid(no, &text::cat3("checkpoint ", &id, " appears twice")));
                }
                let ghost idv = id@;
                let b = Block { id, title: None, hidden: false, note: None, files: Vec::new() };
                assert(b.deep_view() =~= new_block(idv));
                blocks.push(b);
                assert(blocks.deep_view() =~= was.push(new_block(idv)));
                return Ok(());
            },
        }
    }
    let n: usize = blocks.len();
    if n == 0 {
        return Err(invalid(no, "content before the first [checkpoint:ID] header"));
    }
    assert(was.last() == blocks[n - 1].deep_view());
    let read: Result<(), String> = match split_field(line) {
        Some((key, value)) => set_field(&mut blocks[n - 1], key, value),
        None => add_file(&mut blocks[n - 1], line),
    };
    match read {
        Ok(_) => {
            assert(blocks.deep_view() =~= was.drop_last().push(blocks[n - 1].deep_view()));
            Ok(())
        },
        Err(m) => Err(invalid(no, &m)),
    }
}

/// Parse a buffer. Syntax only; cross-checking against the original
/// document happens in [`diff`].
pub fn parse(text: &str) -> (r: Result<Vec<Block>, TrailError>)
    ensures
        outcome(r) == parsed(text@),
{
    let mut blocks: Vec<Block> = Vec::new();
    let lines: Vec<String> = text::lines_of(text);
    let ghost all = lines.deep_view();
    let mut k: usize = 0;
    assert(blocks.deep_view() =~= Seq::empty());
    while k < lines.len()
        invariant
            k <= lines.len(),
            all == lines.deep_view(),
            all == text::lines(text@),
            lines_read(all.take(k as int)) == Ok::<Seq<BlockView>, TrailErrorView>(
                blocks.deep_view(),
            ),
        decreases lines.len() - k,
    {
        proof {
            assert(all.take(k + 1).drop_last() =~= all.take(k as int));
            assert(all.take(k + 1).last() == lines[k as int]@);
        }
        match read_line(&mut blocks, k + 1, &lines[k]) {
            Ok(_) => {},
            Err(e) => {
                proof {
                    lemma_error_stays(all, k + 1);
                }
                return Err(e);
            },
        }
        k += 1;
    }
    assert(all.take(k as int) =~= all);
    Ok(blocks)
}

/// The first error in a buffer is the one reported.
pub proof fn lemma_error_stays(lines: Seq<Seq<char>>, k: int)
    requires
        0 <= k <= lines.len(),
        lines_read(lines.take(k)) is Err,
    ensures
        lines_read(lines) == lines_read(lines.take(k)),
    decreases lines.len() - k,
{
    if k == lines.len() {
        assert(lines.take(k) =~= lines);
    } else {
        assert(lines.take(k + 1).drop_last() =~= lines.take(k));
        lemma_error_stays(lines, k + 1);
    }
}

/// Why an edited buffer is not accepted, if it is not: it cannot be read, or
/// what it says cannot be done.
pub open spec fn edit_refusal(doc: DocumentView, text: Seq<char>) -> Option<TrailErrorView> {
    match parsed(text) {
        Err(e) => Some(e),
        Ok(blocks) => match merge::rejection(doc, blocks) {
            Some(m) => Some(TrailErrorView::InvalidEdit(m)),
            None => None,
        },
    }
}

/// What an accepted edit does: the metadata afterwards, and the summary of it.
pub open spec fn complete_edit(
    summary: EditSummary,
    doc: DocumentView,
    text: Seq<char>,
    before: MetadataView,
    after: MetadataView,
) -> bool {
    let blocks = parsed(text)->Ok_0;
    merge::summary_matches(summary, doc, blocks) && after == merge::merged(doc, blocks, before)
}

} // verus!
