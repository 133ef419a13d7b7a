//! The trail as an editable buffer.

use trail::edit::open::{apply, first_step, EditStep};
use trail::edit::{describe, diff, parse, Block, Document, EditSummary};
use trail::map::TextMap;
use trail::recorder::checkpoint::{ChangeKind, Checkpoint, FileChange};
use trail::recorder::metadata::{
    invalid_metadata, metadata_path, metadata_scratch, Metadata, Move,
};
use trail::time::Timestamp;
use trail::trail::event::{Confidence, EventSource};

fn doc() -> Document {
    let mut origins = TextMap::new();
    origins.insert(
        "s.1".to_string(),
        vec!["s.1".to_string(), "s.1".to_string()],
    );
    origins.insert(
        "s.2".to_string(),
        vec!["s.2".to_string(), "s.2".to_string()],
    );
    Document {
        blocks: vec![
            Block {
                id: "s.1".into(),
                title: None,
                hidden: false,
                note: None,
                files: vec!["src/a.rs".into(), "src/b.rs".into()],
            },
            Block {
                id: "s.2".into(),
                title: Some("Tests".into()),
                hidden: false,
                note: None,
                files: vec!["tests/a.rs".into(), "src/a.rs".into()],
            },
        ],
        origins,
    }
}

#[test]
fn parses_blocks_fields_and_files() {
    let blocks = parse(
        "# comment\n\n[checkpoint:s.1]\ntitle = Auth\nhidden = true\nnote = why\n\nsrc/a.rs\nsrc/b.rs\n\n[checkpoint:s.2]\n\ntests/a.rs\n",
    )
    .unwrap();
    assert_eq!(blocks.len(), 2);
    assert_eq!(blocks[0].title.as_deref(), Some("Auth"));
    assert!(blocks[0].hidden);
    assert_eq!(blocks[0].note.as_deref(), Some("why"));
    assert_eq!(
        blocks[0].files,
        vec![String::from("src/a.rs"), String::from("src/b.rs")]
    );
    assert_eq!(blocks[1].title, None);
}

#[test]
fn rejects_bad_syntax() {
    assert!(parse("src/a.rs\n")
        .unwrap_err()
        .to_string()
        .contains("before the first"));
    assert!(parse("[checkpoint:s.1\n")
        .unwrap_err()
        .to_string()
        .contains("unterminated"));
    assert!(parse("[commit:abc]\n")
        .unwrap_err()
        .to_string()
        .contains("cannot be edited"));
    assert!(parse("[checkpoint:s.1]\ncolor = red\n")
        .unwrap_err()
        .to_string()
        .contains("unknown field"));
    assert!(parse("[checkpoint:s.1]\nhidden = maybe\n")
        .unwrap_err()
        .to_string()
        .contains("true or false"));
    assert!(parse("[checkpoint:s.1]\nsrc/a.rs\nsrc/a.rs\n")
        .unwrap_err()
        .to_string()
        .contains("twice"));
    assert!(parse("[checkpoint:s.1]\n[checkpoint:s.1]\n")
        .unwrap_err()
        .to_string()
        .contains("appears twice"));
}

#[test]
fn diff_detects_title_hidden_move_and_order() {
    let original = doc();
    let edited = parse(
        "[checkpoint:s.2]\ntitle = Tests\nhidden = true\n\ntests/a.rs\nsrc/a.rs\nsrc/b.rs\n\n[checkpoint:s.1]\ntitle = Auth\n\nsrc/a.rs\n",
    )
    .unwrap();
    let mut metadata = Metadata::default();
    let summary = diff(&original, &edited, &mut metadata).unwrap();
    assert_eq!(summary.titled, 1);
    assert_eq!(summary.hidden_changed, 1);
    assert_eq!(summary.moved, 1);
    assert!(summary.reordered);
    assert_eq!(
        metadata.checkpoints.get("s.1").unwrap().title.as_deref(),
        Some("Auth")
    );
    assert!(metadata.checkpoints.get("s.2").unwrap().hidden);
    assert_eq!(
        metadata.moves,
        vec![Move {
            from: "s.1".into(),
            path: "src/b.rs".into(),
            to: "s.2".into()
        }]
    );
    assert_eq!(metadata.order, vec!["s.2".to_string(), "s.1".to_string()]);
}

#[test]
fn diff_rejects_unknown_removed_or_invented() {
    let original = doc();
    let mut m = Metadata::default();
    let unknown = parse("[checkpoint:s.1]\nsrc/a.rs\nsrc/b.rs\n[checkpoint:s.2]\ntests/a.rs\nsrc/a.rs\n[checkpoint:s.9]\n").unwrap();
    assert!(diff(&original, &unknown, &mut m)
        .unwrap_err()
        .to_string()
        .contains("unknown checkpoint"));
    let removed_block = parse("[checkpoint:s.1]\nsrc/a.rs\nsrc/b.rs\ntests/a.rs\n").unwrap();
    assert!(diff(&original, &removed_block, &mut m)
        .unwrap_err()
        .to_string()
        .contains("was removed"));
    let removed_file =
        parse("[checkpoint:s.1]\nsrc/a.rs\n[checkpoint:s.2]\ntests/a.rs\nsrc/a.rs\n").unwrap();
    assert!(diff(&original, &removed_file, &mut m)
        .unwrap_err()
        .to_string()
        .contains("src/b.rs"));
    let invented = parse("[checkpoint:s.1]\nsrc/a.rs\nsrc/b.rs\nnew.rs\n[checkpoint:s.2]\ntests/a.rs\nsrc/a.rs\n").unwrap();
    assert!(diff(&original, &invented, &mut m)
        .unwrap_err()
        .to_string()
        .contains("invented"));
    assert!(m.is_empty(), "failed edits leave metadata untouched");
}

#[test]
fn errors_name_the_line() {
    assert_eq!(
        parse("# x\n\n[note:1]\n").unwrap_err().to_string(),
        "invalid trail edit: line 3: unknown section kind 'note'\n  no changes were applied"
    );
    assert!(parse("[checkpoint: ]\n")
        .unwrap_err()
        .to_string()
        .contains("missing checkpoint id"));
    assert!(parse("[checkpoint]\n")
        .unwrap_err()
        .to_string()
        .contains("expected [checkpoint:ID]"));
}

#[test]
fn a_path_that_reads_as_a_field_can_be_prefixed() {
    let blocks = parse("[checkpoint:s.1]\n./title = x\n").unwrap();
    assert_eq!(blocks[0].files, vec!["title = x"]);
    assert_eq!(blocks[0].title, None);
}

#[test]
fn an_unedited_document_changes_nothing() {
    let original = doc();
    let mut m = Metadata::default();
    let summary = diff(&original, &doc().blocks, &mut m).unwrap();
    assert!(summary.is_empty());
    assert_eq!(describe(&summary), "No changes.");
    assert!(m.moves.is_empty() && m.order.is_empty());
}

#[test]
fn a_summary_lists_what_changed() {
    let summary = EditSummary {
        titled: 1,
        hidden_changed: 2,
        noted: 3,
        moved: 4,
        reordered: true,
    };
    assert_eq!(
        describe(&summary),
        "Updated trail metadata: 1 title(s), 3 note(s), 2 visibility change(s), 4 file(s) regrouped, checkpoints reordered"
    );
}

#[test]
fn applying_reads_checks_and_merges() {
    let mut m = Metadata::default();
    let text = "[checkpoint:s.1]\ntitle = Auth\nsrc/a.rs\nsrc/b.rs\n[checkpoint:s.2]\ntitle = Tests\ntests/a.rs\nsrc/a.rs\n";
    let summary = apply(&doc(), text, &mut m).unwrap();
    assert_eq!(summary.titled, 1);
    assert_eq!(m.checkpoints.get("s.1").unwrap().title.as_deref(), Some("Auth"));
    let before = m.order.clone();
    assert!(apply(&doc(), "[commit:abc]\n", &mut m).is_err());
    assert_eq!(m.order, before);
}

#[test]
fn the_first_step_of_an_edit() {
    let some = doc();
    let none = Document {
        blocks: Vec::new(),
        origins: TextMap::new(),
    };
    assert_eq!(first_step(&some, false, false), EditStep::OpenEditor);
    assert_eq!(first_step(&some, true, false), EditStep::ReadFile);
    assert_eq!(first_step(&some, true, true), EditStep::Show);
    assert_eq!(first_step(&none, false, false), EditStep::Nothing);
    assert_eq!(first_step(&none, true, false), EditStep::ReadFile);
}

fn change(origin: &str, path: &str, seen: i64) -> FileChange {
    FileChange {
        origin: origin.into(),
        path: path.into(),
        kind: ChangeKind::Modified,
        from_path: None,
        before_hash: Some("a".into()),
        after_hash: Some("b".into()),
        first_seen: Timestamp::new(seen, 0),
        last_seen: Timestamp::new(seen, 0),
        edits: 1,
    }
}

fn recorded() -> Vec<Checkpoint> {
    let make = |id: &str, changes: Vec<FileChange>| Checkpoint {
        id: id.into(),
        session_id: "s".into(),
        started_at: changes[0].first_seen,
        ended_at: changes[0].last_seen,
        changes,
        bulk: false,
        boundary: None,
        source: EventSource::TrailRecorder,
        confidence: Confidence::Exact,
        title: None,
        hidden: false,
        annotation: None,
    };
    vec![
        make(
            "s.1",
            vec![change("s.1", "src/a.rs", 1), change("s.1", "src/b.rs", 2)],
        ),
        make("s.2", vec![change("s.2", "src/c.rs", 3)]),
    ]
}

#[test]
fn the_overlay_moves_changes_and_loses_none() {
    let mut m = Metadata::default();
    assert_eq!(m.apply(recorded()), recorded());
    m.moves.push(Move {
        from: "s.2".into(),
        path: "src/c.rs".into(),
        to: "s.1".into(),
    });
    let shown = m.apply(recorded());
    assert_eq!(shown.len(), 1, "an emptied checkpoint is not shown");
    let paths: Vec<&str> = shown[0].changes.iter().map(|c| c.path.as_str()).collect();
    assert_eq!(paths, vec!["src/a.rs", "src/b.rs", "src/c.rs"]);
    // A target that does not exist leaves the change where it originated.
    m.moves[0].to = "gone".into();
    assert_eq!(m.apply(recorded()), recorded());
}

#[test]
fn metadata_lives_below_the_common_directory() {
    assert_eq!(
        metadata_path("/r/.git"),
        "/r/.git/trail/metadata/checkpoints.json"
    );
    assert_eq!(
        metadata_scratch("/r/.git", 42),
        "/r/.git/trail/metadata/.checkpoints.json.42.tmp"
    );
    assert!(invalid_metadata("/r/.git", "expected value at line 1")
        .to_string()
        .contains("is not valid JSON: expected value at line 1"));
}

#[test]
fn an_edit_labels_the_checkpoints_it_names() {
    let mut m = Metadata::default();
    let text = "[checkpoint:s.1]\ntitle = Auth\nhidden = yes\nannotation = why\nsrc/a.rs\nsrc/b.rs\n[checkpoint:s.2]\ntests/a.rs\nsrc/a.rs\n";
    apply(&doc(), text, &mut m).unwrap();
    let shown = m.apply(recorded());
    assert_eq!(shown[0].title.as_deref(), Some("Auth"));
    assert_eq!(shown[0].annotation.as_deref(), Some("why"));
    assert!(shown[0].hidden);
    // A title that was taken away is gone.
    assert_eq!(shown[1].title, None);
    assert!(m.checkpoints.get("s.2").is_none());
}

#[test]
fn the_recorder_counts_past_nine() {
    let ids = ["s.2", "s.9", "s.10"];
    let mut origins = TextMap::new();
    let mut blocks = Vec::new();
    for id in ids {
        origins.insert(id.to_string(), vec![id.to_string()]);
        blocks.push(Block {
            id: id.to_string(),
            title: None,
            hidden: false,
            note: None,
            files: vec![format!("{id}.rs")],
        });
    }
    let original = Document { blocks, origins };
    let mut m = Metadata::default();
    let mut edited = original.blocks.clone();
    edited[2].title = Some("Last".to_string());
    diff(&original, &edited, &mut m).unwrap();
    assert!(m.order.is_empty(), "nothing was reordered");
    edited.swap(0, 2);
    let summary = diff(&original, &edited, &mut m).unwrap();
    assert!(summary.reordered);
    assert_eq!(m.order, vec!["s.10", "s.9", "s.2"]);
}

#[test]
fn saving_an_edit_twice_changes_nothing_more() {
    let text = "[checkpoint:s.2]\ntitle = Tests\ntests/a.rs\nsrc/a.rs\nsrc/b.rs\n[checkpoint:s.1]\nnote = why\nsrc/a.rs\n";
    let mut m = Metadata::default();
    m.order.push("other.1".into());
    let first = apply(&doc(), text, &mut m).unwrap();
    let once = m.clone();
    let second = apply(&doc(), text, &mut m).unwrap();
    assert_eq!(first, second);
    assert_eq!(m.moves, once.moves);
    assert_eq!(m.order, once.order);
    for id in ["s.1", "s.2"] {
        assert_eq!(m.checkpoints.get(id), once.checkpoints.get(id));
    }
}

#[test]
fn blank_lines_and_comments_change_nothing() {
    let bare = "[checkpoint:s.1]\ntitle = Auth\nsrc/a.rs\n";
    let padded = "# top\n\n[checkpoint:s.1]\n  \ntitle = Auth\n   # why\n\nsrc/a.rs\n\n#";
    assert_eq!(parse(bare), parse(padded));
    assert_eq!(
        parse("[checkpoint:s.1]\ncolor = red\n")
            .unwrap_err()
            .to_string(),
        "invalid trail edit: line 2: unknown field 'color'\n  no changes were applied"
    );
    assert_eq!(
        parse("\n# x\n[checkpoint:s.1]\n\ncolor = red\nsize = 1\n")
            .unwrap_err()
            .to_string(),
        "invalid trail edit: line 5: unknown field 'color'\n  no changes were applied"
    );
}

#[test]
fn a_block_reads_back_as_itself() {
    let text = "[checkpoint:s.1]\ntitle = Auth = all\nhidden = true\nnote = why\n\nsrc/a b.rs\nsrc/b.rs\n\n";
    assert_eq!(
        parse(text),
        Ok(vec![Block {
            id: "s.1".into(),
            title: Some("Auth = all".into()),
            hidden: true,
            note: Some("why".into()),
            files: vec!["src/a b.rs".into(), "src/b.rs".into()],
        }])
    );
}
