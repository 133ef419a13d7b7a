//! Snapshot storage: the content behind every `after_hash`.
//!
//! A blob hash alone only identifies content; nothing guarantees the object
//! database still has it (an uncommitted file may never be committed). The
//! recorder therefore writes each observed version into the object database
//! and, so `git gc` keeps it, points `refs/trail/sessions/<session id>` at a
//! commit whose tree lists every snapshot blob of the session.
//!
//! The tree is deliberately flat (`<blob id>` -> blob): checkpoints are
//! derived at read time and must not be baked into refs. The JSONL log says
//! which blob belongs to which path and moment.

use crate::data::{contains_text, Dup};
use crate::order::{self, inserted, ByText};
use crate::text;
use vstd::prelude::*;

verus! {

/// Files larger than this are hashed and recorded but not snapshotted.
pub const SNAPSHOT_MAX_BYTES: usize = 8_388_608;

/// Refresh the protecting ref after this many new blobs, so a crash loses
/// at most a handful of snapshots to a later `git gc`.
pub const PROTECT_EVERY: usize = 25;

/// The reference that protects the snapshots of a session.
pub open spec fn ref_name_of(session_id: Seq<char>) -> Seq<char> {
    "refs/trail/sessions/"@ + session_id
}

/// The reference that protects the snapshots of a session.
pub fn ref_name(session_id: &str) -> (r: String)
    ensures
        r@ == ref_name_of(session_id@),
{
    text::cat2("refs/trail/sessions/", session_id)
}

/// Which blobs a session has stored, and how many of them no reference
/// protects yet.
#[derive(Debug, Clone, PartialEq, Eq)]
pub struct SnapshotStore {
    pub session_id: String,
    /// Ids of the blobs, in order, each once.
    pub blobs: Vec<String>,
    pub unprotected: usize,
}

/// What a [`SnapshotStore`] denotes.
#[verifier::ext_equal]
pub struct SnapshotStoreView {
    pub session_id: Seq<char>,
    pub blobs: Seq<Seq<char>>,
    pub unprotected: usize,
}

impl DeepView for SnapshotStore {
    type V = SnapshotStoreView;

    open spec fn deep_view(&self) -> SnapshotStoreView {
        SnapshotStoreView {
            session_id: self.session_id.deep_view(),
            blobs: self.blobs.deep_view(),
            unprotected: self.unprotected.deep_view(),
        }
    }
}

impl Dup for SnapshotStore {
    fn dup(&self) -> (r: SnapshotStore) {
        SnapshotStore {
            session_id: self.session_id.dup(),
            blobs: self.blobs.dup(),
            unprotected: self.unprotected.dup(),
        }
    }
}

/// Ids in order, each once.
pub open spec fn ascending(ids: Seq<Seq<char>>) -> bool {
    forall|i: int, j: int|
        0 <= i < j < ids.len() ==> text::less(#[trigger] ids[i], #[trigger] ids[j])
}

impl SnapshotStoreView {
    /// The blobs are a set in order, and at least as many as are unprotected.
    pub open spec fn valid(self) -> bool {
        ascending(self.blobs) && self.unprotected <= self.blobs.len()
    }
}

/// A blob that is stored: kept once, and unprotected when it is new. What is
/// over the size cap is not stored.
pub open spec fn stored(s: SnapshotStoreView, id: Seq<char>, size: int) -> SnapshotStoreView {
    if size > SNAPSHOT_MAX_BYTES || s.blobs.contains(id) {
        s
    } else {
        SnapshotStoreView {
            blobs: inserted::<String, ByText>(s.blobs, id),
            unprotected: (s.unprotected + 1) as usize,
            ..s
        }
    }
}

/// Once a reference protects every blob stored so far.
pub open spec fn protected(s: SnapshotStoreView) -> SnapshotStoreView {
    SnapshotStoreView { unprotected: 0, ..s }
}

proof fn lemma_inserted_ascending(ids: Seq<Seq<char>>, id: Seq<char>)
    requires
        ascending(ids),
        !ids.contains(id),
    ensures
        ascending(inserted::<String, ByText>(ids, id)),
        inserted::<String, ByText>(ids, id).len() == ids.len() + 1,
        forall|x: Seq<char>|
            #[trigger] inserted::<String, ByText>(ids, id).contains(x) == (ids.contains(x) || x
                == id),
    decreases ids.len(),
{
    let r = inserted::<String, ByText>(ids, id);
    if ids.len() == 0 || !text::less(id, ids.last()) {
        assert forall|i: int, j: int| 0 <= i < j < r.len() implies text::less(
            #[trigger] r[i],
            #[trigger] r[j],
        ) by {
            if j == ids.len() {
                text::lemma_less_total(id, ids.last());
                assert(ids.contains(ids.last()));
                if i + 1 < ids.len() {
                    assert(text::less(ids[i], ids[ids.len() - 1]));
                    text::lemma_less_transitive(ids[i], ids.last(), id);
                }
            }
        }
        assert forall|x: Seq<char>| r.contains(x) == (ids.contains(x) || x == id) by {
            if ids.contains(x) {
                let i = choose|i: int| 0 <= i < ids.len() && ids[i] == x;
                assert(r[i] == x);
            }
            if x == id {
                assert(r[ids.len() as int] == x);
            }
        }
    } else {
        let rest = ids.drop_last();
        assert(!rest.contains(id)) by {
            if rest.contains(id) {
                let i = choose|i: int| 0 <= i < rest.len() && rest[i] == id;
                assert(ids[i] == id);
            }
        }
        assert(ascending(rest)) by {
            assert forall|i: int, j: int| 0 <= i < j < rest.len() implies text::less(
                #[trigger] rest[i],
                #[trigger] rest[j],
            ) by {
                assert(ids[i] == rest[i] && ids[j] == rest[j]);
            }
        }
        lemma_inserted_ascending(rest, id);
        let q = inserted::<String, ByText>(rest, id);
        let n = ids.len() - 1;
        assert forall|i: int, j: int| 0 <= i < j < r.len() implies text::less(
            #[trigger] r[i],
            #[trigger] r[j],
        ) by {
            if j < q.len() {
                assert(r[i] == q[i] && r[j] == q[j]);
            } else {
                assert(r[i] == q[i]);
                assert(q.contains(q[i]));
                if q[i] != id {
                    let m = choose|m: int| 0 <= m < rest.len() && rest[m] == q[i];
                    assert(text::less(ids[m], ids[n]));
                }
            }
        }
        assert forall|x: Seq<char>| r.contains(x) == (ids.contains(x) || x == id) by {
            assert(q.contains(x) == (rest.contains(x) || x == id));
            if ids.contains(x) {
                let i = choose|i: int| 0 <= i < ids.len() && ids[i] == x;
                if i < n {
                    assert(rest[i] == x);
                    let m = choose|m: int| 0 <= m < q.len() && q[m] == x;
                    assert(r[m] == x);
                } else {
                    assert(r[q.len() as int] == x);
                }
            }
            if x == id {
                let m = choose|m: int| 0 <= m < q.len() && q[m] == x;
                assert(r[m] == x);
            }
            if r.contains(x) {
                let i = choose|i: int| 0 <= i < r.len() && r[i] == x;
                if i < q.len() {
                    assert(q[i] == x);
                    if x != id {
                        let m = choose|m: int| 0 <= m < rest.len() && rest[m] == x;
                        assert(ids[m] == x);
                    }
                } else {
                    assert(ids[n] == x);
                }
            }
        }
    }
}

/// Storing keeps the blobs a set in order that holds the new blob as well.
pub proof fn lemma_stored_valid(s: SnapshotStoreView, id: Seq<char>, size: int)
    requires
        s.valid(),
        s.blobs.len() < usize::MAX,
    ensures
        stored(s, id, size).valid(),
        size <= SNAPSHOT_MAX_BYTES ==> forall|x: Seq<char>|
            stored(s, id, size).blobs.contains(x) == (s.blobs.contains(x) || x == id),
{
    if size <= SNAPSHOT_MAX_BYTES && !s.blobs.contains(id) {
        lemma_inserted_ascending(s.blobs, id);
    }
}

/// Storing adds no blob but the one stored.
pub proof fn lemma_stored_blobs(s: SnapshotStoreView, id: Seq<char>, size: int)
    requires
        ascending(s.blobs),
    ensures
        ascending(stored(s, id, size).blobs),
        forall|x: Seq<char>|
            stored(s, id, size).blobs.contains(x) ==> s.blobs.contains(x) || (x == id && size
                <= SNAPSHOT_MAX_BYTES),
{
    if size <= SNAPSHOT_MAX_BYTES && !s.blobs.contains(id) {
        lemma_inserted_ascending(s.blobs, id);
    }
}

/// Storing adds at most one blob.
pub proof fn lemma_stored_len(s: SnapshotStoreView, id: Seq<char>, size: int)
    requires
        s.valid(),
    ensures
        stored(s, id, size).blobs.len() <= s.blobs.len() + 1,
{
    if size <= SNAPSHOT_MAX_BYTES && !s.blobs.contains(id) {
        lemma_inserted_ascending(s.blobs, id);
    }
}

impl SnapshotStore {
    pub fn new(session_id: &str) -> (r: SnapshotStore)
        ensures
            r.deep_view() == (SnapshotStoreView {
                session_id: session_id@,
                blobs: Seq::empty(),
                unprotected: 0,
            }),
            r.deep_view().valid(),
    {
        let r = SnapshotStore {
            session_id: session_id.to_owned(),
            blobs: Vec::new(),
            unprotected: 0,
        };
        assert(r.deep_view().blobs =~= Seq::empty());
        r
    }

    /// Notes the blob `id` of `size` bytes. Returns false when the file is over
    /// the size cap and is to be skipped.
    pub fn store(&mut self, id: &str, size: usize) -> (r: bool)
        requires
            old(self).deep_view().valid(),
            old(self).blobs.len() < usize::MAX,
        ensures
            r == (size <= SNAPSHOT_MAX_BYTES),
            final(self).deep_view() == stored(old(self).deep_view(), id@, size as int),
            final(self).deep_view().valid(),
    {
        proof {
            lemma_stored_valid(self.deep_view(), id@, size as int);
        }
        if size > SNAPSHOT_MAX_BYTES {
            return false;
        }
        if !contains_text(&self.blobs, id) {
            let ghost was = self.deep_view();
            order::insert_in::<String, ByText>(&mut self.blobs, id.to_owned());
            self.unprotected = self.unprotected + 1;
            assert(self.deep_view() =~= stored(was, id@, size as int));
        }
        true
    }

    pub fn needs_protection(&self) -> (r: bool)
        ensures
            r == (self.deep_view().unprotected >= PROTECT_EVERY),
    {
        self.unprotected >= PROTECT_EVERY
    }

    pub fn blob_count(&self) -> (r: usize)
        ensures
            r == self.deep_view().blobs.len(),
    {
        self.blobs.len()
    }

    /// Every blob stored so far is protected now. Returns false, and there is
    /// nothing to protect, when nothing was stored.
    pub fn protect(&mut self) -> (r: bool)
        requires
            old(self).deep_view().valid(),
        ensures
            r == (old(self).deep_view().blobs.len() > 0),
            final(self).deep_view() == protected(old(self).deep_view()),
            final(self).deep_view().valid(),
    {
        let ghost was = self.deep_view();
        self.unprotected = 0;
        assert(self.deep_view() =~= protected(was));
        self.blobs.len() > 0
    }

    /// The message of the commit that protects the blobs.
    pub fn message(&self) -> (r: String)
        ensures
            r@ == "trail snapshots for session "@ + self.deep_view().session_id + " ("@
                + text::decimal(self.deep_view().blobs.len()) + " blobs)"@,
    {
        text::cat5(
            "trail snapshots for session ",
            &self.session_id,
            " (",
            &text::decimal_of(self.blobs.len() as u64),
            " blobs)",
        )
    }
}

// ---------------------------------------------------------------------------
// Object ids
pub open spec fn lower_hex(c: char) -> char {
    if 'A' <= c <= 'F' {
        ((c as u32) + 32) as char
    } else {
        c
    }
}

/// The object id that a text spells: forty hexadecimal digits, written in lower
/// case.
pub open spec fn object_id(hex: Seq<char>) -> Option<Seq<char>> {
    if hex.len() == 40 && forall|i: int| 0 <= i < hex.len() ==> text::is_hex_digit(
        #[trigger] hex[i],
    ) {
        Some(hex.map_values(|c: char| lower_hex(c)))
    } else {
        None
    }
}

/// Reads an object id with `gix::ObjectId::from_hex` and writes it out again.
///
/// Claimed of it: it accepts forty hexadecimal digits of either case and
/// nothing else, and an id is written in lower case.
#[verifier::external_body]
pub(crate) fn read_object_id(hex: &str) -> (r: Option<String>)
    ensures
        r.deep_view() == object_id(hex@),
{
    gix::ObjectId::from_hex(hex.as_bytes()).ok().map(|id| id.to_string())
}

/// The object to look for to read a snapshot back. A hash that is not a valid
/// object id cannot be in the database.
pub fn blob_to_read(hex: &str) -> (r: Option<String>)
    ensures
        r.deep_view() == object_id(hex@),
{
    read_object_id(hex)
}

} // verus!
