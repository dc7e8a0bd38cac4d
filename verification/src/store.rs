//! The notes store: every note and block, the sequences that hand out new
//! ids, the queries of the note list and the operations that change them.

use vstd::prelude::*;

use crate::block_source::{DICTATION, POST_PROCESSED};
use crate::changes::{
    capture_source, first_default, sole_default_notes, lemma_first_default, lemma_most_recent_in_range,
    lemma_most_recent_step, most_recent, selection_range,
};
use crate::laws::{lemma_ensure_default_note_leaves_one_default, sole_default};
use crate::like::{
    contains_folded, containment_pattern, escape_like, lemma_escaped_query_matches_literally,
    like_match,
};
use crate::model::{
    block_views, maybe_block_view, note_views, result_view, summary_views, BlockView, Note,
    NoteBlock, NoteSummary, NoteView, NoteWithBlocks, NotesChange, NotesError, SummaryView, changed_view, maybe_changed_view, unit_view,
};
use crate::order::{key_lt, occurs, sorted_order, sorts, Key};
use crate::text::{
    chars_of, is_blank, remainder_chars, snippet_of, string_of, sub_chars, trim, truncate_snippet,
};

verus! {

/// All notes and blocks, in increasing order of id, with the last ids handed
/// out.
pub struct NotesManager {
    notes: Vec<Note>,
    blocks: Vec<NoteBlock>,
    note_seq: i64,
    block_seq: i64,
}

/// Mathematical view of the store.
#[verifier::ext_equal]
pub struct StoreView {
    pub notes: Seq<NoteView>,
    pub blocks: Seq<BlockView>,
    /// The largest note id ever handed out.
    pub note_seq: i64,
    /// The largest block id ever handed out.
    pub block_seq: i64,
}

impl View for NotesManager {
    type V = StoreView;

    closed spec fn view(&self) -> StoreView {
        StoreView {
            notes: note_views(self.notes@),
            blocks: block_views(self.blocks@),
            note_seq: self.note_seq,
            block_seq: self.block_seq,
        }
    }
}

/// Note ids are at most `seq` and strictly increasing.
pub open spec fn note_ids_ok(ns: Seq<NoteView>, seq: i64) -> bool {
    &&& forall|i: int| 0 <= i < ns.len() ==> #[trigger] ns[i].id <= seq
    &&& forall|i: int, j: int| 0 <= i < j < ns.len() ==> #[trigger] ns[i].id < #[trigger] ns[j].id
}

/// Block ids are at most `seq` and strictly increasing.
pub open spec fn block_ids_ok(bs: Seq<BlockView>, seq: i64) -> bool {
    &&& forall|i: int| 0 <= i < bs.len() ==> #[trigger] bs[i].id <= seq
    &&& forall|i: int, j: int| 0 <= i < j < bs.len() ==> #[trigger] bs[i].id < #[trigger] bs[j].id
}

/// Number of blocks of note `note` in `bs`.
pub open spec fn count_blocks(bs: Seq<BlockView>, note: i64) -> nat
    decreases bs.len(),
{
    if bs.len() == 0 {
        0
    } else {
        count_blocks(bs.drop_last(), note) + if bs.last().note_id == note {
            1nat
        } else {
            0nat
        }
    }
}

/// Position a block appended to note `note` gets: one past the largest
/// position in the note, or 0 for a note without blocks; `None` when that
/// does not fit in an `i64`.
pub open spec fn next_position_of(bs: Seq<BlockView>, note: i64) -> Option<i64> {
    match top_block(bs, note, None) {
        None => Some(0),
        Some(i) => if bs[i].position == i64::MAX {
            None
        } else {
            Some((bs[i].position + 1) as i64)
        },
    }
}

/// Whether block `b` is admitted by the search text `q` (any block when
/// there is none).
pub open spec fn block_admitted(b: BlockView, q: Option<Seq<char>>) -> bool {
    match q {
        None => true,
        Some(q) => contains_folded(b.content, q),
    }
}

/// Index in `bs` of the admitted block of note `note` with the largest
/// position (the first such block when several share it).
pub open spec fn top_block(bs: Seq<BlockView>, note: i64, q: Option<Seq<char>>) -> Option<int>
    decreases bs.len(),
{
    if bs.len() == 0 {
        None
    } else {
        let prev = top_block(bs.drop_last(), note, q);
        let b = bs.last();
        if b.note_id == note && block_admitted(b, q) && (prev is None || b.position
            > bs[prev->0].position) {
            Some(bs.len() - 1)
        } else {
            prev
        }
    }
}

/// Content of the block at `i`, or nothing.
pub open spec fn content_at(bs: Seq<BlockView>, i: Option<int>) -> Seq<char> {
    match i {
        Some(i) => bs[i].content,
        None => Seq::empty(),
    }
}

/// The text whose snippet the note list shows for note `note`: its last
/// block admitted by `q`, else its last block, else nothing.
pub open spec fn snippet_source(bs: Seq<BlockView>, note: i64, q: Option<Seq<char>>) -> Seq<char> {
    match top_block(bs, note, q) {
        Some(i) => bs[i].content,
        None => content_at(bs, top_block(bs, note, None)),
    }
}

/// The search text of `query`: `None` when it is blank, else the query
/// trimmed.
pub open spec fn search_text(query: Seq<char>) -> Option<Seq<char>> {
    if trim(query).len() == 0 {
        None
    } else {
        Some(trim(query))
    }
}

/// `a` is listed before `b`: the default note first, then the most recently
/// updated, then the lower id.
pub open spec fn listed_before(a: SummaryView, b: SummaryView) -> bool {
    ||| (a.is_default && !b.is_default)
    ||| (a.is_default == b.is_default && a.updated_at > b.updated_at)
    ||| (a.is_default == b.is_default && a.updated_at == b.updated_at && a.id < b.id)
}

/// `a` is shown before `b` among the blocks of a note: lower position
/// first, then lower id.
pub open spec fn block_before(a: BlockView, b: BlockView) -> bool {
    a.position < b.position || (a.position == b.position && a.id < b.id)
}

/// Title given to a note whose requested title is blank.
pub const UNTITLED: &'static str = "Untitled note";

/// Title of the note created when there is none to make the default.
pub const STARTER_TITLE: &'static str = "Scratchpad";

/// The title stored for a requested title: the request itself, or
/// `UNTITLED` when it is blank.
pub open spec fn stored_title(title: Seq<char>) -> Seq<char> {
    if trim(title).len() == 0 {
        UNTITLED@
    } else {
        title
    }
}

/// `ns` with the note `id` (if any) last updated at `now`.
pub open spec fn touched(ns: Seq<NoteView>, id: i64, now: i64) -> Seq<NoteView> {
    ns.map_values(|n: NoteView| if n.id == id { NoteView { updated_at: now, ..n } } else { n })
}

/// Ids of rows read back from storage are strictly increasing.
pub open spec fn rows_in_order(ids: Seq<i64>) -> bool {
    forall|i: int, j: int| 0 <= i < j < ids.len() ==> #[trigger] ids[i] < #[trigger] ids[j]
}

/// The id sequence of a store read back: the stored sequence value, raised
/// to the last id in use (and to 0).
pub open spec fn restored_seq(seq: i64, ids: Seq<i64>) -> i64 {
    let m: i64 = if seq < 0 {
        0
    } else {
        seq
    };
    if ids.len() > 0 && ids.last() > m {
        ids.last()
    } else {
        m
    }
}

/// Ids of `ns`.
pub open spec fn note_ids(ns: Seq<NoteView>) -> Seq<i64> {
    ns.map_values(|n: NoteView| n.id)
}

/// Ids of `bs`.
pub open spec fn block_ids(bs: Seq<BlockView>) -> Seq<i64> {
    bs.map_values(|b: BlockView| b.id)
}

impl StoreView {
    /// Ids are in range and in increasing order.
    pub open spec fn wf(self) -> bool {
        &&& 0 <= self.note_seq
        &&& 0 <= self.block_seq
        &&& note_ids_ok(self.notes, self.note_seq)
        &&& block_ids_ok(self.blocks, self.block_seq)
    }

    /// Some note has id `id`.
    pub open spec fn has_note(self, id: i64) -> bool {
        exists|i: int| 0 <= i < self.notes.len() && #[trigger] self.notes[i].id == id
    }

    /// Index of the note with id `id`.
    pub open spec fn note_idx(self, id: i64) -> int {
        choose|i: int| 0 <= i < self.notes.len() && #[trigger] self.notes[i].id == id
    }

    /// Some block has id `id`.
    pub open spec fn has_block(self, id: i64) -> bool {
        exists|i: int| 0 <= i < self.blocks.len() && #[trigger] self.blocks[i].id == id
    }

    /// Index of the block with id `id`.
    pub open spec fn block_idx(self, id: i64) -> int {
        choose|i: int| 0 <= i < self.blocks.len() && #[trigger] self.blocks[i].id == id
    }

    /// Whether note `n` is shown for search text `q` (every note when there
    /// is none): its title or one of its blocks contains `q`, ASCII letters
    /// compared without regard to case.
    pub open spec fn shown(self, n: NoteView, q: Option<Seq<char>>) -> bool {
        match q {
            None => true,
            Some(t) => contains_folded(n.title, t) || top_block(self.blocks, n.id, q) is Some,
        }
    }

    /// The note-list row of note `n` for search text `q`.
    pub open spec fn summary_of(self, n: NoteView, q: Option<Seq<char>>) -> SummaryView {
        SummaryView {
            id: n.id,
            title: n.title,
            is_default: n.is_default,
            updated_at: n.updated_at,
            block_count: count_blocks(self.blocks, n.id) as i64,
            snippet: snippet_of(snippet_source(self.blocks, n.id, q)),
        }
    }

    /// `r` is the note-list row of some note shown for search text `q`.
    pub open spec fn is_row(self, q: Option<Seq<char>>, r: SummaryView) -> bool {
        exists|k: int|
            0 <= k < self.notes.len() && self.shown(self.notes[k], q) && r == #[trigger] self.summary_of(
                self.notes[k],
                q,
            )
    }

    /// `rows` is the note list for search text `q`: one row for each shown
    /// note and nothing else, in `listed_before` order.
    pub open spec fn lists(self, q: Option<Seq<char>>, rows: Seq<SummaryView>) -> bool {
        &&& forall|i: int| 0 <= i < rows.len() ==> self.is_row(q, #[trigger] rows[i])
        &&& forall|k: int|
            0 <= k < self.notes.len() && #[trigger] self.shown(self.notes[k], q) ==> rows.contains(
                self.summary_of(self.notes[k], q),
            )
        &&& forall|i: int, j: int|
            0 <= i < j < rows.len() ==> listed_before(#[trigger] rows[i], #[trigger] rows[j])
    }

    /// `b` is a block of note `id`.
    pub open spec fn is_block_of(self, id: i64, b: BlockView) -> bool {
        exists|k: int| 0 <= k < self.blocks.len() && #[trigger] self.blocks[k] == b && b.note_id == id
    }

    /// `bs` are the blocks of note `id`, each once, in `block_before` order.
    pub open spec fn blocks_of(self, id: i64, bs: Seq<BlockView>) -> bool {
        &&& forall|i: int| 0 <= i < bs.len() ==> self.is_block_of(id, #[trigger] bs[i])
        &&& forall|k: int|
            0 <= k < self.blocks.len() && #[trigger] self.blocks[k].note_id == id ==> bs.contains(
                self.blocks[k],
            )
        &&& forall|i: int, j: int|
            0 <= i < j < bs.len() ==> block_before(#[trigger] bs[i], #[trigger] bs[j])
    }
}

proof fn lemma_block_ids_remove(bs: Seq<BlockView>, seq: i64, i: int)
    requires
        block_ids_ok(bs, seq),
        0 <= i < bs.len(),
    ensures
        block_ids_ok(bs.remove(i), seq),
{
    let r = bs.remove(i);
    assert forall|a: int, b: int| 0 <= a < b < r.len() implies #[trigger] r[a].id < #[trigger] r[b].id by {
        let oa = if a < i { a } else { a + 1 };
        let ob = if b < i { b } else { b + 1 };
        assert(r[a] == bs[oa]);
        assert(r[b] == bs[ob]);
    }
    assert forall|a: int| 0 <= a < r.len() implies #[trigger] r[a].id <= seq by {
        let oa = if a < i { a } else { a + 1 };
        assert(r[a] == bs[oa]);
    }
}

proof fn lemma_block_ids_update(bs: Seq<BlockView>, seq: i64, i: int, b: BlockView)
    requires
        block_ids_ok(bs, seq),
        0 <= i < bs.len(),
        b.id == bs[i].id,
    ensures
        block_ids_ok(bs.update(i, b), seq),
{
    let r = bs.update(i, b);
    assert forall|x: int, y: int| 0 <= x < y < r.len() implies #[trigger] r[x].id < #[trigger] r[y].id by {
        assert(r[x].id == bs[x].id);
        assert(r[y].id == bs[y].id);
    }
    assert forall|x: int| 0 <= x < r.len() implies #[trigger] r[x].id <= seq by {
        assert(r[x].id == bs[x].id);
    }
}

proof fn lemma_count_le_len(bs: Seq<BlockView>, note: i64)
    ensures
        count_blocks(bs, note) <= bs.len(),
    decreases bs.len(),
{
    if bs.len() > 0 {
        lemma_count_le_len(bs.drop_last(), note);
    }
}

proof fn lemma_top_block_in_range(bs: Seq<BlockView>, note: i64, q: Option<Seq<char>>)
    ensures
        top_block(bs, note, q) matches Some(i) ==> 0 <= i < bs.len() && bs[i].note_id == note
            && block_admitted(bs[i], q),
    decreases bs.len(),
{
    if bs.len() > 0 {
        lemma_top_block_in_range(bs.drop_last(), note, q);
    }
}

/// An index of the exec world as an index of the spec world.
pub open spec fn as_index(o: Option<usize>) -> Option<int> {
    match o {
        Some(i) => Some(i as int),
        None => None,
    }
}

/// Sort key of a block: position, then id.
pub open spec fn block_key(b: BlockView) -> Key {
    (b.position as i128, b.id as i128, 0i128)
}

/// Sort key of a note-list row: default first, then latest update, then id.
pub open spec fn summary_key(s: SummaryView) -> Key {
    (if s.is_default { 0i128 } else { 1i128 }, (-(s.updated_at as int)) as i128, s.id as i128)
}

proof fn lemma_summary_key_order(a: SummaryView, b: SummaryView)
    ensures
        key_lt(summary_key(a), summary_key(b)) == listed_before(a, b),
{
}

proof fn lemma_sorted_blocks(
    s: StoreView,
    note_id: i64,
    idx: Seq<usize>,
    keys: Seq<Key>,
    perm: Seq<usize>,
    bv: Seq<BlockView>,
)
    requires
        idx.len() == keys.len(),
        forall|c: int| 0 <= c < idx.len() ==> #[trigger] idx[c] < s.blocks.len(),
        forall|c: int| 0 <= c < idx.len() ==> s.blocks[#[trigger] idx[c] as int].note_id == note_id,
        forall|m: int| 0 <= m < s.blocks.len() && #[trigger] s.blocks[m].note_id == note_id ==> occurs(idx, m),
        forall|c: int| 0 <= c < keys.len() ==> #[trigger] keys[c] == block_key(s.blocks[idx[c] as int]),
        sorts(keys, perm),
        bv.len() == perm.len(),
        forall|u: int| 0 <= u < bv.len() ==> #[trigger] bv[u] == s.blocks[idx[perm[u] as int] as int],
    ensures
        s.blocks_of(note_id, bv),
{
    lemma_sorted_blocks_from(s, note_id, idx, keys, perm, bv);
    lemma_sorted_blocks_all(s, note_id, idx, keys, perm, bv);
    lemma_sorted_blocks_order(s, note_id, idx, keys, perm, bv);
}

proof fn lemma_sorted_blocks_from(
    s: StoreView,
    note_id: i64,
    idx: Seq<usize>,
    keys: Seq<Key>,
    perm: Seq<usize>,
    bv: Seq<BlockView>,
)
    requires
        idx.len() == keys.len(),
        forall|c: int| 0 <= c < idx.len() ==> #[trigger] idx[c] < s.blocks.len(),
        forall|c: int| 0 <= c < idx.len() ==> s.blocks[#[trigger] idx[c] as int].note_id == note_id,
        sorts(keys, perm),
        bv.len() == perm.len(),
        forall|u: int| 0 <= u < bv.len() ==> #[trigger] bv[u] == s.blocks[idx[perm[u] as int] as int],
    ensures
        forall|i: int| 0 <= i < bv.len() ==> s.is_block_of(note_id, #[trigger] bv[i]),
{
    assert forall|i: int| 0 <= i < bv.len() implies s.is_block_of(note_id, #[trigger] bv[i]) by {
        let c = perm[i] as int;
        assert(0 <= c < keys.len());
        let k = idx[c] as int;
        assert(idx[c] < s.blocks.len());
        assert(s.blocks[k].note_id == note_id);
        assert(bv[i] == s.blocks[k]);
    }
}

proof fn lemma_sorted_blocks_all(
    s: StoreView,
    note_id: i64,
    idx: Seq<usize>,
    keys: Seq<Key>,
    perm: Seq<usize>,
    bv: Seq<BlockView>,
)
    requires
        idx.len() == keys.len(),
        forall|m: int| 0 <= m < s.blocks.len() && #[trigger] s.blocks[m].note_id == note_id ==> occurs(idx, m),
        sorts(keys, perm),
        bv.len() == perm.len(),
        forall|u: int| 0 <= u < bv.len() ==> #[trigger] bv[u] == s.blocks[idx[perm[u] as int] as int],
    ensures
        forall|k: int|
            0 <= k < s.blocks.len() && #[trigger] s.blocks[k].note_id == note_id ==> bv.contains(
                s.blocks[k],
            ),
{
    assert forall|k: int| 0 <= k < s.blocks.len() && #[trigger] s.blocks[k].note_id == note_id implies bv.contains(
        s.blocks[k],
    ) by {
        assert(occurs(idx, k));
        let c = choose|c: int| 0 <= c < idx.len() && #[trigger] idx[c] == k;
        assert(occurs(perm, c));
        let i = choose|i: int| 0 <= i < perm.len() && #[trigger] perm[i] == c;
        assert(bv[i] == s.blocks[k]);
    }
}

proof fn lemma_sorted_blocks_order(
    s: StoreView,
    note_id: i64,
    idx: Seq<usize>,
    keys: Seq<Key>,
    perm: Seq<usize>,
    bv: Seq<BlockView>,
)
    requires
        idx.len() == keys.len(),
        forall|c: int| 0 <= c < keys.len() ==> #[trigger] keys[c] == block_key(s.blocks[idx[c] as int]),
        sorts(keys, perm),
        bv.len() == perm.len(),
        forall|u: int| 0 <= u < bv.len() ==> #[trigger] bv[u] == s.blocks[idx[perm[u] as int] as int],
    ensures
        forall|i: int, j: int| 0 <= i < j < bv.len() ==> block_before(#[trigger] bv[i], #[trigger] bv[j]),
{
    assert forall|i: int, j: int| 0 <= i < j < bv.len() implies block_before(#[trigger] bv[i], #[trigger] bv[j]) by {
        let ci = perm[i] as int;
        let cj = perm[j] as int;
        assert(key_lt(keys[ci], keys[cj]));
        assert(keys[ci] == block_key(bv[i]));
        assert(keys[cj] == block_key(bv[j]));
    }
}

/// `m` occurs in `s`.
pub open spec fn occurs_int(s: Seq<int>, m: int) -> bool {
    exists|c: int| 0 <= c < s.len() && #[trigger] s[c] == m
}

proof fn lemma_sorted_rows(
    s: StoreView,
    q: Option<Seq<char>>,
    src: Seq<int>,
    cand: Seq<SummaryView>,
    keys: Seq<Key>,
    perm: Seq<usize>,
    rows: Seq<SummaryView>,
)
    requires
        src.len() == cand.len(),
        cand.len() == keys.len(),
        forall|c: int| 0 <= c < src.len() ==> 0 <= #[trigger] src[c] < s.notes.len(),
        forall|c: int| 0 <= c < src.len() ==> s.shown(s.notes[#[trigger] src[c]], q),
        forall|c: int| 0 <= c < src.len() ==> #[trigger] cand[c] == s.summary_of(s.notes[src[c]], q),
        forall|c: int| 0 <= c < keys.len() ==> #[trigger] keys[c] == summary_key(cand[c]),
        forall|m: int| 0 <= m < s.notes.len() && #[trigger] s.shown(s.notes[m], q) ==> occurs_int(src, m),
        sorts(keys, perm),
        rows.len() == perm.len(),
        forall|u: int| 0 <= u < rows.len() ==> #[trigger] rows[u] == cand[perm[u] as int],
    ensures
        s.lists(q, rows),
{
    assert forall|i: int| 0 <= i < rows.len() implies s.is_row(q, #[trigger] rows[i]) by {
        let c = perm[i] as int;
        assert(0 <= c < keys.len());
        let k = src[c];
        assert(s.shown(s.notes[k], q));
        assert(rows[i] == s.summary_of(s.notes[k], q));
    }
    assert forall|m: int| 0 <= m < s.notes.len() && #[trigger] s.shown(s.notes[m], q) implies rows.contains(
        s.summary_of(s.notes[m], q),
    ) by {
        assert(occurs_int(src, m));
        let c = choose|c: int| 0 <= c < src.len() && #[trigger] src[c] == m;
        assert(occurs(perm, c));
        let i = choose|i: int| 0 <= i < perm.len() && #[trigger] perm[i] == c;
        assert(rows[i] == s.summary_of(s.notes[m], q));
    }
    assert forall|i: int, j: int| 0 <= i < j < rows.len() implies listed_before(#[trigger] rows[i], #[trigger] rows[j]) by {
        let ci = perm[i] as int;
        let cj = perm[j] as int;
        assert(key_lt(keys[ci], keys[cj]));
        lemma_summary_key_order(rows[i], rows[j]);
    }
}

proof fn lemma_top_block_step(bs: Seq<BlockView>, note: i64, q: Option<Seq<char>>, i: int)
    requires
        0 <= i < bs.len(),
    ensures
        top_block(bs.take(i + 1), note, q) == ({
            let prev = top_block(bs.take(i), note, q);
            if bs[i].note_id == note && block_admitted(bs[i], q) && (prev is None || bs[i].position
                > bs[prev->0].position) {
                Some(i)
            } else {
                prev
            }
        }),
        count_blocks(bs.take(i + 1), note) == count_blocks(bs.take(i), note) + if bs[i].note_id
            == note {
            1nat
        } else {
            0nat
        },
{
    assert(bs.take(i + 1).drop_last() =~= bs.take(i));
    lemma_top_block_in_range(bs.take(i), note, q);
    let prev = top_block(bs.take(i), note, q);
    if prev is Some {
        assert(bs.take(i + 1)[prev->0] == bs[prev->0]);
    }
}

impl NotesManager {
    /// The store is well formed.
    pub open spec fn wf(&self) -> bool {
        self@.wf()
    }

    proof fn lemma_view_at(&self)
        ensures
            self@.notes.len() == self.notes@.len(),
            self@.blocks.len() == self.blocks@.len(),
            forall|i: int| 0 <= i < self.notes@.len() ==> #[trigger] self@.notes[i] == self.notes@[i]@,
            forall|i: int| 0 <= i < self.blocks@.len() ==> #[trigger] self@.blocks[i] == self.blocks@[i]@,
    {
    }

    /// An empty store.
    pub fn new() -> (r: Self)
        ensures
            r.wf(),
            r@.notes.len() == 0,
            r@.blocks.len() == 0,
            r@.note_seq == 0,
            r@.block_seq == 0,
    {
        let r = NotesManager { notes: Vec::new(), blocks: Vec::new(), note_seq: 0, block_seq: 0 };
        proof {
            assert(r@.notes =~= Seq::<NoteView>::empty());
            assert(r@.blocks =~= Seq::<BlockView>::empty());
        }
        r
    }

    /// Index of the note with id `id`.
    fn find_note(&self, id: i64) -> (r: Option<usize>)
        requires
            self.wf(),
        ensures
            r matches Some(i) ==> i < self.notes@.len() && self@.has_note(id) && self@.note_idx(id)
                == i && self@.notes[i as int].id == id,
            r is None ==> !self@.has_note(id),
    {
        proof {
            self.lemma_view_at();
        }
        let mut i: usize = 0;
        while i < self.notes.len()
            invariant
                i <= self.notes@.len(),
                self.wf(),
                forall|k: int| 0 <= k < i ==> self@.notes[k].id != id,
            decreases self.notes@.len() - i,
        {
            proof {
                self.lemma_view_at();
            }
            if self.notes[i].id == id {
                proof {
                    assert(self@.notes[i as int].id == id);
                    let j = self@.note_idx(id);
                    assert(self@.notes[j].id == id);
                    if j < i {
                        assert(self@.notes[j].id < self@.notes[i as int].id);
                    } else if j > i {
                        assert(self@.notes[i as int].id < self@.notes[j].id);
                    }
                }
                return Some(i);
            }
            i = i + 1;
        }
        None
    }

    /// Index of the block with id `id`.
    fn find_block(&self, id: i64) -> (r: Option<usize>)
        requires
            self.wf(),
        ensures
            r matches Some(i) ==> i < self.blocks@.len() && self@.has_block(id) && self@.block_idx(
                id,
            ) == i && self@.blocks[i as int].id == id,
            r is None ==> !self@.has_block(id),
    {
        proof {
            self.lemma_view_at();
        }
        let mut i: usize = 0;
        while i < self.blocks.len()
            invariant
                i <= self.blocks@.len(),
                self.wf(),
                forall|k: int| 0 <= k < i ==> self@.blocks[k].id != id,
            decreases self.blocks@.len() - i,
        {
            proof {
                self.lemma_view_at();
            }
            if self.blocks[i].id == id {
                proof {
                    assert(self@.blocks[i as int].id == id);
                    let j = self@.block_idx(id);
                    assert(self@.blocks[j].id == id);
                    if j < i {
                        assert(self@.blocks[j].id < self@.blocks[i as int].id);
                    } else if j > i {
                        assert(self@.blocks[i as int].id < self@.blocks[j].id);
                    }
                }
                return Some(i);
            }
            i = i + 1;
        }
        None
    }

    /// Number of blocks of note `note`, its block with the largest position,
    /// and (for a search) its block with the largest position among those
    /// matching `pattern`.
    fn scan_note(
        &self,
        note: i64,
        pattern: Option<&Vec<char>>,
        Ghost(q): Ghost<Option<Seq<char>>>,
    ) -> (r: (usize, Option<usize>, Option<usize>))
        requires
            self.wf(),
            pattern is Some <==> q is Some,
            pattern matches Some(p) ==> p@ == containment_pattern(q->0),
        ensures
            r.0 == count_blocks(self@.blocks, note),
            as_index(r.1) == top_block(self@.blocks, note, None),
            q is Some ==> as_index(r.2) == top_block(self@.blocks, note, q),
    {
        let ghost vb = self@.blocks;
        let mut count: usize = 0;
        let mut top_any: Option<usize> = None;
        let mut top_match: Option<usize> = None;
        let mut i: usize = 0;
        proof {
            self.lemma_view_at();
            lemma_count_le_len(vb, note);
            assert(vb.take(0) =~= Seq::<BlockView>::empty());
        }
        while i < self.blocks.len()
            invariant
                i <= self.blocks@.len(),
                vb == self@.blocks,
                vb.len() == self.blocks@.len(),
                forall|k: int| 0 <= k < self.blocks@.len() ==> #[trigger] vb[k] == self.blocks@[k]@,
                pattern is Some <==> q is Some,
                pattern matches Some(p) ==> p@ == containment_pattern(q->0),
                count == count_blocks(vb.take(i as int), note),
                as_index(top_any) == top_block(vb.take(i as int), note, None),
                q is Some ==> as_index(top_match) == top_block(vb.take(i as int), note, q),
            decreases self.blocks@.len() - i,
        {
            let b = &self.blocks[i];
            proof {
                lemma_top_block_step(vb, note, None, i as int);
                lemma_top_block_step(vb, note, q, i as int);
                lemma_top_block_in_range(vb.take(i as int), note, None);
                lemma_top_block_in_range(vb.take(i as int), note, q);
                lemma_count_le_len(vb.take(i as int), note);
            }
            if b.note_id == note {
                count = count + 1;
                let better = match top_any {
                    None => true,
                    Some(t) => b.position > self.blocks[t].position,
                };
                if better {
                    top_any = Some(i);
                }
                match pattern {
                    Some(p) => {
                        let content = chars_of(b.content.as_str());
                        let hit = like_match(p, &content);
                        proof {
                            lemma_escaped_query_matches_literally(q->0, b.content@);
                        }
                        if hit {
                            let better_hit = match top_match {
                                None => true,
                                Some(t) => b.position > self.blocks[t].position,
                            };
                            if better_hit {
                                top_match = Some(i);
                            }
                        }
                    },
                    None => {},
                }
            }
            i = i + 1;
        }
        proof {
            assert(vb.take(vb.len() as int) =~= vb);
        }
        (count, top_any, top_match)
    }

    /// Position a block appended to note `note_id` gets: one past the
    /// largest position in the note, or 0 for a note without blocks.
    pub fn next_position(&self, note_id: i64) -> (r: Result<i64, NotesError>)
        requires
            self.wf(),
        ensures
            match r {
                Ok(p) => next_position_of(self@.blocks, note_id) == Some(p),
                Err(e) => e == NotesError::PositionOverflow && next_position_of(self@.blocks, note_id)
                    is None,
            },
    {
        let (_, top, _) = self.scan_note(note_id, None, Ghost(None));
        proof {
            self.lemma_view_at();
            lemma_top_block_in_range(self@.blocks, note_id, None);
        }
        match top {
            None => Ok(0),
            Some(t) => {
                let p = self.blocks[t].position;
                if p == i64::MAX {
                    Err(NotesError::PositionOverflow)
                } else {
                    Ok(p + 1)
                }
            },
        }
    }

    /// The note-list row of the note at index `k`, if it is shown for the
    /// search text `q` that `pattern` encodes.
    fn summary_row(&self, k: usize, pattern: Option<&Vec<char>>, Ghost(q): Ghost<Option<Seq<char>>>) -> (r: Option<NoteSummary>)
        requires
            self.wf(),
            k < self@.notes.len(),
            pattern is Some <==> q is Some,
            pattern matches Some(p) ==> p@ == containment_pattern(q->0),
        ensures
            r is Some <==> self@.shown(self@.notes[k as int], q),
            r matches Some(row) ==> row@ == self@.summary_of(self@.notes[k as int], q),
    {
        proof {
            self.lemma_view_at();
            lemma_count_le_len(self@.blocks, self@.notes[k as int].id);
            lemma_top_block_in_range(self@.blocks, self@.notes[k as int].id, None);
            lemma_top_block_in_range(self@.blocks, self@.notes[k as int].id, q);
        }
        let note = &self.notes[k];
        let (count, top_any, top_match) = self.scan_note(note.id, pattern, Ghost(q));
        let shown = match pattern {
            None => true,
            Some(p) => {
                let title = chars_of(note.title.as_str());
                proof {
                    lemma_escaped_query_matches_literally(q->0, note.title@);
                }
                like_match(p, &title) || top_match.is_some()
            },
        };
        if !shown {
            return None;
        }
        let snippet = match (pattern, top_match) {
            (Some(_), Some(t)) => truncate_snippet(self.blocks[t].content.as_str()),
            _ => match top_any {
                Some(t) => truncate_snippet(self.blocks[t].content.as_str()),
                None => truncate_snippet(""),
            },
        };
        proof {
            reveal_strlit("");
            assert(""@ =~= Seq::<char>::empty());
        }
        Some(
            NoteSummary {
                id: note.id,
                title: note.title.clone(),
                is_default: note.is_default,
                updated_at: note.updated_at,
                block_count: count as i64,
                snippet,
            },
        )
    }

    /// The note list for the search text `q` that `pattern` encodes.
    fn summaries(&self, pattern: Option<&Vec<char>>, Ghost(q): Ghost<Option<Seq<char>>>) -> (rows: Vec<NoteSummary>)
        requires
            self.wf(),
            pattern is Some <==> q is Some,
            pattern matches Some(p) ==> p@ == containment_pattern(q->0),
        ensures
            self@.lists(q, summary_views(rows@)),
    {
        proof {
            self.lemma_view_at();
        }
        let ghost vn = self@.notes;
        let mut cand: Vec<NoteSummary> = Vec::new();
        let mut keys: Vec<Key> = Vec::new();
        let ghost mut src: Seq<int> = Seq::empty();
        let n = self.notes.len();
        for k in 0..n
            invariant
                self.wf(),
                n == self.notes@.len(),
                vn == self@.notes,
                vn.len() == n,
                pattern is Some <==> q is Some,
                pattern matches Some(p) ==> p@ == containment_pattern(q->0),
                src.len() == cand@.len(),
                cand@.len() == keys@.len(),
                forall|c: int| 0 <= c < src.len() ==> 0 <= #[trigger] src[c] < k,
                forall|c: int| 0 <= c < src.len() ==> self@.shown(vn[#[trigger] src[c]], q),
                forall|c: int| 0 <= c < src.len() ==> #[trigger] cand@[c]@ == self@.summary_of(vn[src[c]], q),
                forall|c: int| 0 <= c < keys@.len() ==> #[trigger] keys@[c] == summary_key(cand@[c]@),
                forall|c: int, d: int| 0 <= c < d < src.len() ==> #[trigger] src[c] < #[trigger] src[d],
                forall|m: int| 0 <= m < k && #[trigger] self@.shown(vn[m], q) ==> occurs_int(src, m),
        {
            let row = self.summary_row(k, pattern, Ghost(q));
            match row {
                Some(r) => {
                    let key: Key = (if r.is_default { 0i128 } else { 1i128 }, -(r.updated_at as i128), r.id as i128);
                    let ghost old_src = src;
                    cand.push(r);
                    keys.push(key);
                    proof {
                        src = src.push(k as int);
                        assert forall|m: int| 0 <= m < k + 1 && #[trigger] self@.shown(vn[m], q) implies occurs_int(src, m) by {
                            if m == k {
                                assert(src[src.len() - 1] == m);
                            } else {
                                assert(occurs_int(old_src, m));
                                let c = choose|c: int| 0 <= c < old_src.len() && #[trigger] old_src[c] == m;
                                assert(src[c] == m);
                            }
                        }
                    }
                },
                None => {},
            }
        }
        proof {
            assert forall|c: int, d: int| 0 <= c < keys@.len() && 0 <= d < keys@.len() && c != d implies keys@[c] != keys@[d] by {
                if c < d {
                    assert(src[c] < src[d]);
                    assert(vn[src[c]].id < vn[src[d]].id);
                } else {
                    assert(src[d] < src[c]);
                    assert(vn[src[d]].id < vn[src[c]].id);
                }
            }
        }
        let perm = sorted_order(&keys);
        let mut rows: Vec<NoteSummary> = Vec::new();
        for t in 0..perm.len()
            invariant
                sorts(keys@, perm@),
                cand@.len() == keys@.len(),
                rows@.len() == t,
                forall|u: int| 0 <= u < t ==> #[trigger] rows@[u]@ == cand@[perm@[u] as int]@,
        {
            let c = perm[t];
            rows.push(cand[c].duplicate());
        }
        proof {
            let rv = summary_views(rows@);
            let cv = summary_views(cand@);
            assert forall|u: int| 0 <= u < rv.len() implies #[trigger] rv[u] == cv[perm@[u] as int] by {
                assert(perm@[u] < keys@.len());
            }
            lemma_sorted_rows(self@, q, src, cv, keys@, perm@, rv);
        }
        rows
    }

    /// Every note, as rows of the note list: the default note first, then
    /// the most recently updated.
    pub fn list_notes(&self) -> (rows: Vec<NoteSummary>)
        requires
            self.wf(),
        ensures
            self@.lists(None, summary_views(rows@)),
    {
        self.summaries(None, Ghost(None))
    }

    /// Notes whose title or any block's content contains `query` (ASCII
    /// letters compared without regard to case), as rows of the note list.
    /// The snippet shows the last matching block when one matched on
    /// content, else the note's last block. A blank query lists every note.
    pub fn search(&self, query: &str) -> (rows: Vec<NoteSummary>)
        requires
            self.wf(),
        ensures
            self@.lists(search_text(query@), summary_views(rows@)),
    {
        if is_blank(query) {
            return self.summaries(None, Ghost(None));
        }
        let v = chars_of(query);
        let (a, b) = crate::text::trim_bounds(&v);
        let mut trimmed: Vec<char> = Vec::new();
        for i in a..b
            invariant
                a <= b <= v@.len(),
                trimmed@ == v@.subrange(a as int, i as int),
        {
            trimmed.push(v[i]);
            proof {
                assert(v@.subrange(a as int, i + 1) =~= v@.subrange(a as int, i as int).push(v@[i as int]));
            }
        }
        let t = crate::text::string_of(&trimmed);
        let escaped = escape_like(t.as_str());
        let e = chars_of(escaped.as_str());
        let mut pattern: Vec<char> = Vec::new();
        pattern.push('%');
        for i in 0..e.len()
            invariant
                pattern@ == seq!['%'] + e@.take(i as int),
        {
            pattern.push(e[i]);
            proof {
                assert(e@.take(i + 1) =~= e@.take(i as int).push(e@[i as int]));
                assert(pattern@ =~= seq!['%'] + e@.take(i + 1));
            }
        }
        pattern.push('%');
        proof {
            assert(e@.take(e@.len() as int) =~= e@);
            assert(pattern@ =~= containment_pattern(trim(query@)));
        }
        self.summaries(Some(&pattern), Ghost(Some(trim(query@))))
    }

    /// Indices of the blocks of note `note_id`, in increasing order.
    fn note_block_indices(&self, note_id: i64) -> (idx: Vec<usize>)
        requires
            self.wf(),
        ensures
            forall|c: int| 0 <= c < idx@.len() ==> #[trigger] idx@[c] < self.blocks@.len(),
            forall|c: int| 0 <= c < idx@.len() ==> self@.blocks[#[trigger] idx@[c] as int].note_id == note_id,
            forall|c: int, d: int| 0 <= c < d < idx@.len() ==> #[trigger] idx@[c] < #[trigger] idx@[d],
            forall|m: int| 0 <= m < self.blocks@.len() && #[trigger] self@.blocks[m].note_id == note_id ==> occurs(idx@, m),
    {
        proof {
            self.lemma_view_at();
        }
        let ghost vb = self@.blocks;
        let mut idx: Vec<usize> = Vec::new();
        let n = self.blocks.len();
        for k in 0..n
            invariant
                n == self.blocks@.len(),
                vb == self@.blocks,
                vb.len() == n,
                forall|m: int| 0 <= m < n ==> #[trigger] vb[m] == self.blocks@[m]@,
                forall|c: int| 0 <= c < idx@.len() ==> #[trigger] idx@[c] < k,
                forall|c: int| 0 <= c < idx@.len() ==> vb[#[trigger] idx@[c] as int].note_id == note_id,
                forall|c: int, d: int| 0 <= c < d < idx@.len() ==> #[trigger] idx@[c] < #[trigger] idx@[d],
                forall|m: int| 0 <= m < k && #[trigger] vb[m].note_id == note_id ==> occurs(idx@, m),
        {
            if self.blocks[k].note_id == note_id {
                let ghost old_idx = idx@;
                idx.push(k);
                proof {
                    assert(idx@[idx@.len() - 1] == k);
                    assert forall|m: int| 0 <= m < k + 1 && #[trigger] vb[m].note_id == note_id implies occurs(idx@, m) by {
                        if m == k {
                            assert(idx@[idx@.len() - 1] == m);
                        } else {
                            assert(occurs(old_idx, m));
                            let c = choose|c: int| 0 <= c < old_idx.len() && #[trigger] old_idx[c] == m;
                            assert(idx@[c] == m);
                        }
                    }
                }
            }
        }
        idx
    }

    /// The note with id `note_id` and its blocks in position order, if there
    /// is such a note.
    pub fn get_note(&self, note_id: i64) -> (r: Option<NoteWithBlocks>)
        requires
            self.wf(),
        ensures
            match r {
                None => !self@.has_note(note_id),
                Some(nb) => {
                    &&& self@.has_note(note_id)
                    &&& nb.note@ == self@.notes[self@.note_idx(note_id)]
                    &&& self@.blocks_of(note_id, block_views(nb.blocks@))
                },
            },
    {
        proof {
            self.lemma_view_at();
        }
        let ni = match self.find_note(note_id) {
            Some(ni) => ni,
            None => {
                return None;
            },
        };
        let note = self.notes[ni].duplicate();
        let ghost vb = self@.blocks;
        let n = self.blocks.len();
        let idx = self.note_block_indices(note_id);
        let mut keys: Vec<Key> = Vec::new();
        for c in 0..idx.len()
            invariant
                n == self.blocks@.len(),
                vb == self@.blocks,
                vb.len() == n,
                forall|m: int| 0 <= m < n ==> #[trigger] vb[m] == self.blocks@[m]@,
                forall|c: int| 0 <= c < idx@.len() ==> #[trigger] idx@[c] < n,
                keys@.len() == c,
                forall|d: int| 0 <= d < c ==> #[trigger] keys@[d] == block_key(vb[idx@[d] as int]),
        {
            let b = &self.blocks[idx[c]];
            keys.push((b.position as i128, b.id as i128, 0i128));
        }
        proof {
            assert forall|c: int, d: int| 0 <= c < keys@.len() && 0 <= d < keys@.len() && c != d implies keys@[c] != keys@[d] by {
                if c < d {
                    assert(idx@[c] < idx@[d]);
                    assert(vb[idx@[c] as int].id < vb[idx@[d] as int].id);
                } else {
                    assert(idx@[d] < idx@[c]);
                    assert(vb[idx@[d] as int].id < vb[idx@[c] as int].id);
                }
            }
        }
        let perm = sorted_order(&keys);
        let mut out: Vec<NoteBlock> = Vec::new();
        for t in 0..perm.len()
            invariant
                n == self.blocks@.len(),
                vb.len() == n,
                forall|m: int| 0 <= m < n ==> #[trigger] vb[m] == self.blocks@[m]@,
                sorts(keys@, perm@),
                idx@.len() == keys@.len(),
                forall|c: int| 0 <= c < idx@.len() ==> #[trigger] idx@[c] < n,
                out@.len() == t,
                forall|u: int| 0 <= u < t ==> #[trigger] out@[u]@ == vb[idx@[perm@[u] as int] as int],
        {
            let c = perm[t];
            out.push(self.blocks[idx[c]].duplicate());
        }
        proof {
            let bv = block_views(out@);
            assert forall|u: int| 0 <= u < bv.len() implies #[trigger] bv[u] == vb[idx@[perm@[u] as int] as int] by {
                assert(bv[u] == out@[u]@);
            }
            lemma_sorted_blocks(self@, note_id, idx@, keys@, perm@, bv);
        }
        Some(NoteWithBlocks { note, blocks: out })
    }

    /// The block with id `block_id`, if there is one.
    pub fn get_block(&self, block_id: i64) -> (r: Option<NoteBlock>)
        requires
            self.wf(),
        ensures
            match r {
                Some(b) => self@.has_block(block_id) && b@ == self@.blocks[self@.block_idx(block_id)],
                None => !self@.has_block(block_id),
            },
    {
        proof {
            self.lemma_view_at();
        }
        match self.find_block(block_id) {
            Some(i) => Some(self.blocks[i].duplicate()),
            None => None,
        }
    }
}


impl NotesManager {
    /// Marks note `note_id` (if there is one) as updated at `now`.
    fn touch_note(&mut self, note_id: i64, now: i64)
        requires
            old(self).wf(),
        ensures
            final(self).wf(),
            final(self)@ == (StoreView { notes: touched(old(self)@.notes, note_id, now), ..old(self)@ }),
    {
        proof {
            self.lemma_view_at();
        }
        match self.find_note(note_id) {
            Some(i) => {
                let mut n = self.notes[i].duplicate();
                n.updated_at = now;
                self.notes.set(i, n);
                proof {
                    let on = old(self)@.notes;
                    assert forall|j: int| 0 <= j < on.len() && j != i implies on[j].id != note_id by {
                        if j < i {
                            assert(on[j].id < on[i as int].id);
                        } else {
                            assert(on[i as int].id < on[j].id);
                        }
                    }
                    assert(self@.notes =~= touched(on, note_id, now));
                }
            },
            None => {
                proof {
                    assert(self@.notes =~= touched(old(self)@.notes, note_id, now));
                }
            },
        }
    }

    /// The work of `create_note` on the store, at time `now`.
    fn apply_create_note(&mut self, title: String, now: i64) -> (r: Result<Note, NotesError>)
        requires
            old(self).wf(),
        ensures
            final(self).wf(),
            final(self)@ == old(self)@.create_note_op(title@, now).0,
            result_view(r) == old(self)@.create_note_op(title@, now).1,
    {
        proof {
            self.lemma_view_at();
        }
        if self.note_seq == i64::MAX {
            return Err(NotesError::NoteIdsExhausted);
        }
        let title = if is_blank(title.as_str()) {
            UNTITLED.to_owned()
        } else {
            title
        };
        let id = self.note_seq + 1;
        let note = Note { id, title, is_default: false, created_at: now, updated_at: now };
        self.notes.push(note.duplicate());
        self.note_seq = id;
        proof {
            assert(self@.notes =~= old(self)@.notes.push(note@));
        }
        Ok(note)
    }

    /// The work of `rename_note` on the store, at time `now`.
    fn apply_rename_note(&mut self, note_id: i64, title: String, now: i64) -> (r: Result<(), NotesError>)
        requires
            old(self).wf(),
        ensures
            final(self).wf(),
            final(self)@ == old(self)@.rename_note_op(note_id, title@, now).0,
            r == old(self)@.rename_note_op(note_id, title@, now).1,
    {
        proof {
            self.lemma_view_at();
        }
        let i = match self.find_note(note_id) {
            Some(i) => i,
            None => {
                return Err(NotesError::NoteNotFound(note_id));
            },
        };
        let title = if is_blank(title.as_str()) {
            UNTITLED.to_owned()
        } else {
            title
        };
        let mut n = self.notes[i].duplicate();
        n.title = title;
        n.updated_at = now;
        self.notes.set(i, n);
        proof {
            let on = old(self)@.notes;
            assert forall|j: int| 0 <= j < on.len() && j != i implies on[j].id != note_id by {
                if j < i {
                    assert(on[j].id < on[i as int].id);
                } else {
                    assert(on[i as int].id < on[j].id);
                }
            }
            assert(self@.notes =~= old(self)@.rename_note_op(note_id, title@, now).0.notes);
        }
        Ok(())
    }

    /// The work of `set_default_note` on the store.
    fn apply_set_default_note(&mut self, note_id: i64) -> (r: Result<(), NotesError>)
        requires
            old(self).wf(),
        ensures
            final(self).wf(),
            final(self)@ == old(self)@.set_default_note_op(note_id).0,
            r == old(self)@.set_default_note_op(note_id).1,
    {
        proof {
            self.lemma_view_at();
        }
        if self.find_note(note_id).is_none() {
            return Err(NotesError::NoteNotFound(note_id));
        }
        self.mark_sole_default(note_id);
        Ok(())
    }

    /// Makes note `note_id` the only default note.
    fn mark_sole_default(&mut self, note_id: i64)
        requires
            old(self).wf(),
        ensures
            final(self).wf(),
            final(self)@ == (StoreView { notes: sole_default_notes(old(self)@.notes, note_id), ..old(self)@ }),
    {
        proof {
            self.lemma_view_at();
        }
        let ghost on = old(self)@.notes;
        let n = self.notes.len();
        for k in 0..n
            invariant
                n == self.notes@.len(),
                on == old(self)@.notes,
                on.len() == n,
                self.note_seq == old(self).note_seq,
                self.blocks == old(self).blocks,
                self.block_seq == old(self).block_seq,
                forall|j: int| 0 <= j < k ==> #[trigger] self.notes@[j]@ == (NoteView { is_default: on[j].id == note_id, ..on[j] }),
                forall|j: int| k <= j < n ==> #[trigger] self.notes@[j]@ == on[j],
        {
            let mut m = self.notes[k].duplicate();
            m.is_default = m.id == note_id;
            self.notes.set(k, m);
        }
        proof {
            assert(self@.notes =~= sole_default_notes(on, note_id));
            assert(self@ =~= (StoreView { notes: sole_default_notes(on, note_id), ..old(self)@ }));
        }
    }

    /// The work of `delete_note` on the store.
    fn apply_delete_note(&mut self, note_id: i64) -> (r: Result<(), NotesError>)
        requires
            old(self).wf(),
        ensures
            final(self).wf(),
            final(self)@ == old(self)@.delete_note_op(note_id).0,
            r == old(self)@.delete_note_op(note_id).1,
    {
        proof {
            self.lemma_view_at();
        }
        let i = match self.find_note(note_id) {
            Some(i) => i,
            None => {
                return Err(NotesError::NoteNotFound(note_id));
            },
        };
        if self.notes[i].is_default {
            return Err(NotesError::DefaultNoteUndeletable);
        }
        let ghost vb = self@.blocks;
        let ghost pred = |b: BlockView| b.note_id != note_id;
        let mut kept: Vec<NoteBlock> = Vec::new();
        let n = self.blocks.len();
        proof {
            assert(vb.take(0) =~= Seq::<BlockView>::empty());
        }
        for k in 0..n
            invariant
                n == self.blocks@.len(),
                vb == self@.blocks,
                vb.len() == n,
                old(self).wf(),
                vb == old(self)@.blocks,
                pred == (|b: BlockView| b.note_id != note_id),
                forall|m: int| 0 <= m < n ==> #[trigger] vb[m] == self.blocks@[m]@,
                block_views(kept@) == vb.take(k as int).filter(pred),
                block_ids_ok(block_views(kept@), old(self)@.block_seq),
                forall|c: int, m: int| 0 <= c < kept@.len() && k <= m < n ==> #[trigger] kept@[c].id < #[trigger] vb[m].id,
        {
            proof {
                assert(vb.take(k + 1).drop_last() =~= vb.take(k as int));
                assert(vb.take(k + 1).last() == vb[k as int]);
                reveal_with_fuel(Seq::<_>::filter, 1);
                assert(vb.take(k + 1).filter(pred) == if pred(vb[k as int]) {
                    vb.take(k as int).filter(pred).push(vb[k as int])
                } else {
                    vb.take(k as int).filter(pred)
                });
                assert(pred(vb[k as int]) == (self.blocks@[k as int].note_id != note_id));
            }
            if self.blocks[k].note_id != note_id {
                let ghost old_kept = kept@;
                kept.push(self.blocks[k].duplicate());
                proof {
                    assert(block_views(kept@) =~= block_views(old_kept).push(vb[k as int]));
                    assert(block_views(kept@) == vb.take(k + 1).filter(pred));
                    assert forall|c: int, m: int| 0 <= c < kept@.len() && k + 1 <= m < n implies #[trigger] kept@[c].id < #[trigger] vb[m].id by {
                        if c < old_kept.len() {
                            assert(kept@[c] == old_kept[c]);
                            assert(old_kept[c].id < vb[k as int].id);
                        }
                        assert(vb[k as int].id < vb[m].id);
                    }
                    let kv = block_views(kept@);
                    assert forall|a: int, b: int| 0 <= a < b < kv.len() implies #[trigger] kv[a].id < #[trigger] kv[b].id by {
                        if b == kv.len() - 1 {
                            assert(kv[a] == old_kept[a]@);
                            assert(old_kept[a].id < vb[k as int].id);
                        } else {
                            assert(kv[a] == block_views(old_kept)[a]);
                            assert(kv[b] == block_views(old_kept)[b]);
                        }
                    }
                }
            }
        }
        proof {
            assert(vb.take(n as int) =~= vb);
        }
        self.notes.remove(i);
        self.blocks = kept;
        proof {
            assert(self@.notes =~= old(self)@.notes.remove(i as int));
            let on = old(self)@.notes;
            assert forall|a: int, b: int| 0 <= a < b < self@.notes.len() implies #[trigger] self@.notes[a].id < #[trigger] self@.notes[b].id by {
                let oa = if a < i { a } else { a + 1 };
                let ob = if b < i { b } else { b + 1 };
                assert(self@.notes[a] == on[oa]);
                assert(self@.notes[b] == on[ob]);
            }
            assert forall|a: int| 0 <= a < self@.notes.len() implies #[trigger] self@.notes[a].id <= self@.note_seq by {
                let oa = if a < i { a } else { a + 1 };
                assert(self@.notes[a] == on[oa]);
            }
            assert(self@ =~= old(self)@.delete_note_op(note_id).0);
        }
        Ok(())
    }

    /// The work of `append_block` on the store, at time `now`.
    fn apply_append_block(&mut self, note_id: i64, content: String, source: &str, now: i64) -> (r: Result<NoteBlock, NotesError>)
        requires
            old(self).wf(),
        ensures
            final(self).wf(),
            final(self)@ == old(self)@.append_block_op(note_id, content@, source@, now).0,
            result_view(r) == old(self)@.append_block_op(note_id, content@, source@, now).1,
    {
        proof {
            self.lemma_view_at();
        }
        let position = match self.next_position(note_id) {
            Ok(p) => p,
            Err(e) => {
                return Err(e);
            },
        };
        if self.block_seq == i64::MAX {
            return Err(NotesError::BlockIdsExhausted);
        }
        let id = self.block_seq + 1;
        let block = NoteBlock { id, note_id, position, content, source: source.to_owned(), created_at: now };
        self.blocks.push(block.duplicate());
        self.block_seq = id;
        proof {
            assert(self@.blocks =~= old(self)@.blocks.push(block@));
        }
        self.touch_note(note_id, now);
        proof {
            assert(self@ =~= old(self)@.append_block_op(note_id, content@, source@, now).0);
        }
        Ok(block)
    }

    /// Makes sure exactly one note is the default and returns its id: the
    /// first default note if there is one (any other stops being default);
    /// else the most recently updated note is made the default; else a
    /// starter note is created as the default, created at `now`.
    pub fn ensure_default_note(&mut self, now: i64) -> (r: Result<i64, NotesError>)
        requires
            old(self).wf(),
        ensures
            final(self).wf(),
            final(self)@ == old(self)@.ensure_default_note_op(now).0,
            r == old(self)@.ensure_default_note_op(now).1,
            r matches Ok(id) ==> sole_default(final(self)@.notes, id),
    {
        proof {
            lemma_ensure_default_note_leaves_one_default(old(self)@, now);
            self.lemma_view_at();
            lemma_first_default(self@.notes);
        }
        let ghost vn = self@.notes;
        let n = self.notes.len();
        let mut k: usize = 0;
        while k < n
            invariant
                n == self.notes@.len(),
                vn == self@.notes,
                vn.len() == n,
                k <= n,
                self.wf(),
                vn == old(self)@.notes,
                self@ == old(self)@,
                forall|j: int| 0 <= j < n ==> #[trigger] vn[j] == self.notes@[j]@,
                forall|j: int| 0 <= j < k ==> !(#[trigger] vn[j]).is_default,
            decreases n - k,
        {
            if self.notes[k].is_default {
                proof {
                    lemma_first_default(vn);
                    match first_default(vn) {
                        Some(i) => {
                            if i < k {
                                assert(!vn[i].is_default);
                            } else if i > k {
                                assert(!vn[k as int].is_default);
                            }
                        },
                        None => {
                            assert(!vn[k as int].is_default);
                        },
                    }
                }
                let id = self.notes[k].id;
                self.mark_sole_default(id);
                proof {
                    lemma_ensure_default_note_leaves_one_default(old(self)@, now);
                }
                return Ok(id);
            }
            k = k + 1;
        }
        // no default note: promote the most recently updated one
        let mut best: Option<usize> = None;
        let mut j: usize = 0;
        proof {
            assert(vn.take(0) =~= Seq::<NoteView>::empty());
        }
        while j < n
            invariant
                n == self.notes@.len(),
                vn == self@.notes,
                vn.len() == n,
                j <= n,
                forall|m: int| 0 <= m < n ==> #[trigger] vn[m] == self.notes@[m]@,
                as_index(best) == most_recent(vn.take(j as int)),
            decreases n - j,
        {
            proof {
                lemma_most_recent_step(vn, j as int);
            }
            let better = match best {
                None => true,
                Some(b) => self.notes[j].updated_at > self.notes[b].updated_at,
            };
            if better {
                best = Some(j);
            }
            j = j + 1;
        }
        proof {
            assert(vn.take(n as int) =~= vn);
            lemma_most_recent_in_range(vn);
            lemma_first_default(vn);
        }
        match best {
            Some(b) => {
                let mut m = self.notes[b].duplicate();
                m.is_default = true;
                let id = m.id;
                self.notes.set(b, m);
                proof {
                    assert(self@.notes =~= old(self)@.ensure_default_note_op(now).0.notes);
                }
                Ok(id)
            },
            None => {
                if self.note_seq == i64::MAX {
                    return Err(NotesError::NoteIdsExhausted);
                }
                let id = self.note_seq + 1;
                let note = Note {
                    id,
                    title: STARTER_TITLE.to_owned(),
                    is_default: true,
                    created_at: now,
                    updated_at: now,
                };
                self.notes.push(note);
                self.note_seq = id;
                proof {
                    assert(self@.notes =~= old(self)@.ensure_default_note_op(now).0.notes);
                }
                Ok(id)
            },
        }
    }

    /// The work of `append_to_default` on the store, at time `now`.
    fn apply_append_to_default(&mut self, content: &str, post_processed: bool, now: i64) -> (r: Result<Option<NoteBlock>, NotesError>)
        requires
            old(self).wf(),
        ensures
            final(self).wf(),
            final(self)@ == old(self)@.append_to_default_op(content@, post_processed, now).0,
            maybe_block_view(r) == old(self)@.append_to_default_op(content@, post_processed, now).1,
    {
        if is_blank(content) {
            return Ok(None);
        }
        let note_id = match self.ensure_default_note(now) {
            Ok(id) => id,
            Err(e) => {
                return Err(e);
            },
        };
        let source = if post_processed {
            POST_PROCESSED
        } else {
            DICTATION
        };
        assert(source@ == capture_source(post_processed));
        match self.apply_append_block(note_id, content.to_owned(), source, now) {
            Ok(b) => Ok(Some(b)),
            Err(e) => Err(e),
        }
    }

    /// Replaces the content (and, when `source` is given, the source tag)
    /// of block `block_id`, at time `now`.
    fn edit_block(&mut self, block_id: i64, content: String, source: Option<&str>, now: i64) -> (r: Result<NoteBlock, NotesError>)
        requires
            old(self).wf(),
        ensures
            final(self).wf(),
            final(self)@ == old(self)@.edit_block_op(
                block_id,
                content@,
                match source {
                    Some(s) => Some(s@),
                    None => None,
                },
                now,
            ).0,
            result_view(r) == old(self)@.edit_block_op(
                block_id,
                content@,
                match source {
                    Some(s) => Some(s@),
                    None => None,
                },
                now,
            ).1,
    {
        proof {
            self.lemma_view_at();
        }
        let i = match self.find_block(block_id) {
            Some(i) => i,
            None => {
                return Err(NotesError::BlockNotFound(block_id));
            },
        };
        let mut b = self.blocks[i].duplicate();
        b.content = content;
        match source {
            Some(s) => {
                b.source = s.to_owned();
            },
            None => {},
        }
        let note_id = b.note_id;
        self.blocks.set(i, b.duplicate());
        proof {
            assert(self@.blocks =~= old(self)@.blocks.update(i as int, b@));
            lemma_block_ids_update(old(self)@.blocks, old(self)@.block_seq, i as int, b@);
        }
        self.touch_note(note_id, now);
        proof {
            assert(self@ =~= old(self)@.edit_block_op(
                block_id,
                content@,
                match source {
                    Some(s) => Some(s@),
                    None => None,
                },
                now,
            ).0);
        }
        Ok(b)
    }



    /// The work of `delete_block` on the store, at time `now`.
    fn apply_delete_block(&mut self, block_id: i64, now: i64) -> (r: Result<(), NotesError>)
        requires
            old(self).wf(),
        ensures
            final(self).wf(),
            final(self)@ == old(self)@.delete_block_op(block_id, now).0,
            r == old(self)@.delete_block_op(block_id, now).1,
    {
        proof {
            self.lemma_view_at();
        }
        let i = match self.find_block(block_id) {
            Some(i) => i,
            None => {
                return Err(NotesError::BlockNotFound(block_id));
            },
        };
        let note_id = self.blocks[i].note_id;
        self.blocks.remove(i);
        proof {
            assert(self@.blocks =~= old(self)@.blocks.remove(i as int));
            lemma_block_ids_remove(old(self)@.blocks, old(self)@.block_seq, i as int);
        }
        self.touch_note(note_id, now);
        proof {
            assert(self@ =~= old(self)@.delete_block_op(block_id, now).0);
        }
        Ok(())
    }

    /// The work of `move_block` on the store, at time `now`.
    fn apply_move_block(&mut self, block_id: i64, target_note_id: i64, now: i64) -> (r: Result<NoteBlock, NotesError>)
        requires
            old(self).wf(),
        ensures
            final(self).wf(),
            final(self)@ == old(self)@.move_block_op(block_id, target_note_id, now).0,
            result_view(r) == old(self)@.move_block_op(block_id, target_note_id, now).1,
    {
        proof {
            self.lemma_view_at();
        }
        let i = match self.find_block(block_id) {
            Some(i) => i,
            None => {
                return Err(NotesError::BlockNotFound(block_id));
            },
        };
        if self.find_note(target_note_id).is_none() {
            return Err(NotesError::TargetNoteNotFound(target_note_id));
        }
        let position = match self.next_position(target_note_id) {
            Ok(p) => p,
            Err(e) => {
                return Err(e);
            },
        };
        let mut b = self.blocks[i].duplicate();
        let source_note_id = b.note_id;
        b.note_id = target_note_id;
        b.position = position;
        self.blocks.set(i, b.duplicate());
        proof {
            assert(self@.blocks =~= old(self)@.blocks.update(i as int, b@));
            lemma_block_ids_update(old(self)@.blocks, old(self)@.block_seq, i as int, b@);
        }
        self.touch_note(source_note_id, now);
        self.touch_note(target_note_id, now);
        proof {
            assert(self@ =~= old(self)@.move_block_op(block_id, target_note_id, now).0);
        }
        Ok(b)
    }

    /// The work of `split_and_move_block` on the store, at time `now`.
    fn apply_split_and_move_block(
        &mut self,
        block_id: i64,
        start: usize,
        end: usize,
        target_note_id: i64,
        now: i64,
    ) -> (r: Result<NoteBlock, NotesError>)
        requires
            old(self).wf(),
        ensures
            final(self).wf(),
            final(self)@ == old(self)@.split_and_move_block_op(block_id, start, end, target_note_id, now).0,
            result_view(r) == old(self)@.split_and_move_block_op(block_id, start, end, target_note_id, now).1,
    {
        proof {
            self.lemma_view_at();
        }
        let i = match self.find_block(block_id) {
            Some(i) => i,
            None => {
                return Err(NotesError::BlockNotFound(block_id));
            },
        };
        if self.find_note(target_note_id).is_none() {
            return Err(NotesError::TargetNoteNotFound(target_note_id));
        }
        let old_block = self.blocks[i].duplicate();
        let v = chars_of(old_block.content.as_str());
        let len = v.len();
        let s = if start < len {
            start
        } else {
            len
        };
        let e = if end < s {
            s
        } else if end > len {
            len
        } else {
            end
        };
        proof {
            assert(selection_range(old_block.content@.len(), start, end) == (s as int, e as int));
        }
        if s == e {
            return Err(NotesError::EmptySelection);
        }
        let selected = sub_chars(&v, s, e);
        let before = sub_chars(&v, 0, s);
        let after = sub_chars(&v, e, len);
        let rest = remainder_chars(&before, &after);
        proof {
            assert(before@ =~= v@.take(s as int));
            assert(after@ =~= v@.skip(e as int));
        }
        let ghost ob = old(self)@.blocks;
        let ghost bs1 = if rest@.len() == 0 {
            ob.remove(i as int)
        } else {
            ob.update(i as int, BlockView { content: rest@, ..ob[i as int] })
        };
        let removed = rest.len() == 0;
        if removed {
            self.blocks.remove(i);
            proof {
                assert(self@.blocks =~= bs1);
                lemma_block_ids_remove(ob, old(self)@.block_seq, i as int);
            }
        } else {
            let mut kept = old_block.duplicate();
            kept.content = string_of(&rest);
            self.blocks.set(i, kept);
            proof {
                assert(self@.blocks =~= bs1);
                lemma_block_ids_update(ob, old(self)@.block_seq, i as int, BlockView { content: rest@, ..ob[i as int] });
            }
        }
        let position = self.next_position(target_note_id);
        let fits = match position {
            Ok(_) => self.block_seq < i64::MAX,
            Err(_) => false,
        };
        if !fits {
            if removed {
                self.blocks.insert(i, old_block);
            } else {
                self.blocks.set(i, old_block);
            }
            proof {
                assert(self@.blocks =~= ob);
                assert(self@ =~= old(self)@);
            }
            return match position {
                Ok(_) => Err(NotesError::BlockIdsExhausted),
                Err(e) => Err(e),
            };
        }
        let position = match position {
            Ok(p) => p,
            Err(e) => {
                return Err(e);
            },
        };
        self.touch_note(old_block.note_id, now);
        let id = self.block_seq + 1;
        let block = NoteBlock {
            id,
            note_id: target_note_id,
            position,
            content: string_of(&selected),
            source: old_block.source.clone(),
            created_at: now,
        };
        let ghost before_push = self@.blocks;
        self.blocks.push(block.duplicate());
        self.block_seq = id;
        proof {
            assert(self@.blocks =~= before_push.push(block@));
        }
        self.touch_note(target_note_id, now);
        proof {
            assert(self@ =~= old(self)@.split_and_move_block_op(block_id, start, end, target_note_id, now).0);
        }
        Ok(block)
    }

    /// Creates a note titled `title` (or `UNTITLED` when it is blank). It is created at `now`.
    pub fn create_note(&mut self, title: String, now: i64) -> (r: Result<(Note, NotesChange), NotesError>)
        requires
            old(self).wf(),
        ensures
            final(self).wf(),
            final(self)@ == old(self)@.create_note_op(title@, now).0,
            changed_view(r) == old(self)@.create_note_op(title@, now).1,
            r matches Ok(x) ==> x.1 == NotesChange::NoteCreated,
    {
        match self.apply_create_note(title, now) {
            Ok(n) => Ok((n, NotesChange::NoteCreated)),
            Err(e) => Err(e),
        }
    }

    /// Renames note `note_id` to `title` (or `UNTITLED` when it is blank). It is updated at `now`.
    pub fn rename_note(&mut self, note_id: i64, title: String, now: i64) -> (r: Result<NotesChange, NotesError>)
        requires
            old(self).wf(),
        ensures
            final(self).wf(),
            final(self)@ == old(self)@.rename_note_op(note_id, title@, now).0,
            unit_view(r) == old(self)@.rename_note_op(note_id, title@, now).1,
            r matches Ok(c) ==> c == NotesChange::NoteRenamed,
    {
        match self.apply_rename_note(note_id, title, now) {
            Ok(()) => Ok(NotesChange::NoteRenamed),
            Err(e) => Err(e),
        }
    }

    /// Makes note `note_id` the one default note.
    pub fn set_default_note(&mut self, note_id: i64) -> (r: Result<NotesChange, NotesError>)
        requires
            old(self).wf(),
        ensures
            final(self).wf(),
            final(self)@ == old(self)@.set_default_note_op(note_id).0,
            unit_view(r) == old(self)@.set_default_note_op(note_id).1,
            r matches Ok(c) ==> c == NotesChange::DefaultNoteSet,
    {
        match self.apply_set_default_note(note_id) {
            Ok(()) => Ok(NotesChange::DefaultNoteSet),
            Err(e) => Err(e),
        }
    }

    /// Deletes note `note_id` and its blocks. The default note can't be
    /// deleted: it is where captured dictation lands, so another note must
    /// be made the default first.
    pub fn delete_note(&mut self, note_id: i64) -> (r: Result<NotesChange, NotesError>)
        requires
            old(self).wf(),
        ensures
            final(self).wf(),
            final(self)@ == old(self)@.delete_note_op(note_id).0,
            unit_view(r) == old(self)@.delete_note_op(note_id).1,
            r matches Ok(c) ==> c == NotesChange::NoteDeleted,
    {
        match self.apply_delete_note(note_id) {
            Ok(()) => Ok(NotesChange::NoteDeleted),
            Err(e) => Err(e),
        }
    }

    /// Appends a block with `content` to note `note_id` (which need not
    /// exist), after the note's last block, tagged with `source`. The block is created, and the
    /// note updated, at `now`.
    pub fn append_block(&mut self, note_id: i64, content: String, source: &str, now: i64) -> (r: Result<(NoteBlock, NotesChange), NotesError>)
        requires
            old(self).wf(),
        ensures
            final(self).wf(),
            final(self)@ == old(self)@.append_block_op(note_id, content@, source@, now).0,
            changed_view(r) == old(self)@.append_block_op(note_id, content@, source@, now).1,
            r matches Ok(x) ==> x.1 == (NotesChange::BlockAppended { note_id }),
    {
        match self.apply_append_block(note_id, content, source, now) {
            Ok(b) => Ok((b, NotesChange::BlockAppended { note_id })),
            Err(e) => Err(e),
        }
    }

    /// Capture-pipeline entry point: appends `content` to the default note,
    /// tagged by whether it was post-processed. Blank content appends
    /// nothing and gives `Ok(None)`. The block is created at `now`.
    pub fn append_to_default(&mut self, content: &str, post_processed: bool, now: i64) -> (r: Result<Option<(NoteBlock, NotesChange)>, NotesError>)
        requires
            old(self).wf(),
        ensures
            final(self).wf(),
            final(self)@ == old(self)@.append_to_default_op(content@, post_processed, now).0,
            maybe_changed_view(r) == old(self)@.append_to_default_op(content@, post_processed, now).1,
            r matches Ok(Some(x)) ==> x.1 == (NotesChange::BlockAppended { note_id: x.0.note_id }),
    {
        match self.apply_append_to_default(content, post_processed, now) {
            Ok(Some(b)) => {
                let note_id = b.note_id;
                Ok(Some((b, NotesChange::BlockAppended { note_id })))
            },
            Ok(None) => Ok(None),
            Err(e) => Err(e),
        }
    }

    /// Replaces the content of block `block_id`. Its note is updated at `now`.
    pub fn update_block(&mut self, block_id: i64, content: String, now: i64) -> (r: Result<(NoteBlock, NotesChange), NotesError>)
        requires
            old(self).wf(),
        ensures
            final(self).wf(),
            final(self)@ == old(self)@.edit_block_op(block_id, content@, None, now).0,
            changed_view(r) == old(self)@.edit_block_op(block_id, content@, None, now).1,
            r matches Ok(x) ==> x.1 == (NotesChange::BlockEdited {
                note_id: old(self)@.blocks[old(self)@.block_idx(block_id)].note_id,
            }),
    {
        match self.edit_block(block_id, content, None, now) {
            Ok(b) => {
                let note_id = b.note_id;
                Ok((b, NotesChange::BlockEdited { note_id }))
            },
            Err(e) => Err(e),
        }
    }

    /// Replaces a block's content with its post-processed result and tags
    /// it as post-processed. Its note is updated at `now`.
    pub fn apply_post_processed_content(&mut self, block_id: i64, content: String, now: i64) -> (r: Result<(NoteBlock, NotesChange), NotesError>)
        requires
            old(self).wf(),
        ensures
            final(self).wf(),
            final(self)@ == old(self)@.edit_block_op(block_id, content@, Some(POST_PROCESSED@), now).0,
            changed_view(r) == old(self)@.edit_block_op(block_id, content@, Some(POST_PROCESSED@), now).1,
            r matches Ok(x) ==> x.1 == (NotesChange::BlockEdited {
                note_id: old(self)@.blocks[old(self)@.block_idx(block_id)].note_id,
            }),
    {
        match self.edit_block(block_id, content, Some(POST_PROCESSED), now) {
            Ok(b) => {
                let note_id = b.note_id;
                Ok((b, NotesChange::BlockEdited { note_id }))
            },
            Err(e) => Err(e),
        }
    }

    /// Deletes block `block_id`. Its note is updated at `now`.
    pub fn delete_block(&mut self, block_id: i64, now: i64) -> (r: Result<NotesChange, NotesError>)
        requires
            old(self).wf(),
        ensures
            final(self).wf(),
            final(self)@ == old(self)@.delete_block_op(block_id, now).0,
            unit_view(r) == old(self)@.delete_block_op(block_id, now).1,
            r matches Ok(c) ==> c == (NotesChange::BlockDeleted {
                note_id: old(self)@.blocks[old(self)@.block_idx(block_id)].note_id,
            }),
    {
        let note_id = match self.get_block(block_id) {
            Some(b) => b.note_id,
            None => 0,
        };
        match self.apply_delete_block(block_id, now) {
            Ok(()) => Ok(NotesChange::BlockDeleted { note_id }),
            Err(e) => Err(e),
        }
    }

    /// Moves block `block_id` to the end of note `target_note_id`. Both notes are updated at `now`.
    pub fn move_block(&mut self, block_id: i64, target_note_id: i64, now: i64) -> (r: Result<(NoteBlock, NotesChange), NotesError>)
        requires
            old(self).wf(),
        ensures
            final(self).wf(),
            final(self)@ == old(self)@.move_block_op(block_id, target_note_id, now).0,
            changed_view(r) == old(self)@.move_block_op(block_id, target_note_id, now).1,
            r matches Ok(x) ==> x.1 == (NotesChange::BlockMoved {
                source_note_id: old(self)@.blocks[old(self)@.block_idx(block_id)].note_id,
                target_note_id,
            }),
    {
        let source_note_id = match self.get_block(block_id) {
            Some(b) => b.note_id,
            None => 0,
        };
        match self.apply_move_block(block_id, target_note_id, now) {
            Ok(b) => Ok((b, NotesChange::BlockMoved { source_note_id, target_note_id })),
            Err(e) => Err(e),
        }
    }

    /// Splits the characters `[start, end)` of block `block_id` off into a
    /// new block at the end of note `target_note_id`, leaving the trimmed
    /// rest in the original block, or deleting that block when nothing is
    /// left. Offsets count `char`s; either all of it happens or nothing does. Both notes are updated at `now`.
    pub fn split_and_move_block(
        &mut self,
        block_id: i64,
        start: usize,
        end: usize,
        target_note_id: i64,
        now: i64,
    ) -> (r: Result<(NoteBlock, NotesChange), NotesError>)
        requires
            old(self).wf(),
        ensures
            final(self).wf(),
            final(self)@ == old(self)@.split_and_move_block_op(block_id, start, end, target_note_id, now).0,
            changed_view(r) == old(self)@.split_and_move_block_op(block_id, start, end, target_note_id, now).1,
            r matches Ok(x) ==> x.1 == (NotesChange::BlockMoved {
                source_note_id: old(self)@.blocks[old(self)@.block_idx(block_id)].note_id,
                target_note_id,
            }),
    {
        let source_note_id = match self.get_block(block_id) {
            Some(b) => b.note_id,
            None => 0,
        };
        match self.apply_split_and_move_block(block_id, start, end, target_note_id, now) {
            Ok(b) => Ok((b, NotesChange::BlockMoved { source_note_id, target_note_id })),
            Err(e) => Err(e),
        }
    }

    /// The notes, in increasing order of id.
    pub fn notes(&self) -> (r: &Vec<Note>)
        ensures
            note_views(r@) == self@.notes,
    {
        &self.notes
    }

    /// The blocks, in increasing order of id.
    pub fn blocks(&self) -> (r: &Vec<NoteBlock>)
        ensures
            block_views(r@) == self@.blocks,
    {
        &self.blocks
    }

    /// The largest note id ever handed out.
    pub fn note_seq(&self) -> (r: i64)
        ensures
            r == self@.note_seq,
    {
        self.note_seq
    }

    /// The largest block id ever handed out.
    pub fn block_seq(&self) -> (r: i64)
        ensures
            r == self@.block_seq,
    {
        self.block_seq
    }

    /// A store holding the rows read back from storage, or `None` when
    /// their ids are not strictly increasing. The id
    /// sequences are the stored ones, raised to the last id in use.
    pub fn from_rows(notes: Vec<Note>, blocks: Vec<NoteBlock>, note_seq: i64, block_seq: i64) -> (r: Option<NotesManager>)
        ensures
            r is Some <==> rows_in_order(note_ids(note_views(notes@))) && rows_in_order(block_ids(block_views(blocks@))),
            r matches Some(m) ==> {
                &&& m.wf()
                &&& m@.notes == note_views(notes@)
                &&& m@.blocks == block_views(blocks@)
                &&& m@.note_seq == restored_seq(note_seq, note_ids(note_views(notes@)))
                &&& m@.block_seq == restored_seq(block_seq, block_ids(block_views(blocks@)))
            },
    {
        let ghost nids = note_ids(note_views(notes@));
        let ghost bids = block_ids(block_views(blocks@));
        let mut last: i64 = 0;
        for k in 0..notes.len()
            invariant
                nids == note_ids(note_views(notes@)),
                nids.len() == notes@.len(),
                forall|i: int| 0 <= i < notes@.len() ==> #[trigger] nids[i] == notes@[i].id,
                k == 0 ==> last == 0,
                k > 0 ==> last == nids[k - 1],
                forall|i: int, j: int| 0 <= i < j < k ==> #[trigger] nids[i] < #[trigger] nids[j],
        {
            let id = notes[k].id;
            if k > 0 && id <= last {
                proof {
                    assert(nids[k - 1] >= nids[k as int]);
                    assert(!(nids[k - 1] < nids[k as int]));
                    assert(!rows_in_order(nids));
                }
                return None;
            }
            last = id;
        }
        let mut note_top: i64 = if note_seq < 0 {
            0
        } else {
            note_seq
        };
        if notes.len() > 0 && last > note_top {
            note_top = last;
        }
        let mut blast: i64 = 0;
        for k in 0..blocks.len()
            invariant
                bids == block_ids(block_views(blocks@)),
                nids == note_ids(note_views(notes@)),
                bids.len() == blocks@.len(),
                forall|i: int| 0 <= i < blocks@.len() ==> #[trigger] bids[i] == blocks@[i].id,
                rows_in_order(nids),
                k == 0 ==> blast == 0,
                k > 0 ==> blast == bids[k - 1],
                forall|i: int, j: int| 0 <= i < j < k ==> #[trigger] bids[i] < #[trigger] bids[j],
        {
            let id = blocks[k].id;
            if k > 0 && id <= blast {
                proof {
                    assert(bids[k - 1] >= bids[k as int]);
                    assert(!(bids[k - 1] < bids[k as int]));
                    assert(!rows_in_order(bids));
                }
                return None;
            }
            blast = id;
        }
        let mut block_top: i64 = if block_seq < 0 {
            0
        } else {
            block_seq
        };
        if blocks.len() > 0 && blast > block_top {
            block_top = blast;
        }
        let m = NotesManager { notes, blocks, note_seq: note_top, block_seq: block_top };
        proof {
            assert forall|i: int| 0 <= i < m@.notes.len() implies #[trigger] m@.notes[i].id <= m@.note_seq by {
                assert(m@.notes[i].id == nids[i]);
                if i < nids.len() - 1 {
                    assert(nids[i] < nids[nids.len() - 1]);
                }
            }
            assert forall|i: int, j: int| 0 <= i < j < m@.notes.len() implies #[trigger] m@.notes[i].id < #[trigger] m@.notes[j].id by {
                assert(m@.notes[i].id == nids[i]);
                assert(m@.notes[j].id == nids[j]);
            }
            assert forall|i: int| 0 <= i < m@.blocks.len() implies #[trigger] m@.blocks[i].id <= m@.block_seq by {
                assert(m@.blocks[i].id == bids[i]);
                if i < bids.len() - 1 {
                    assert(bids[i] < bids[bids.len() - 1]);
                }
            }
            assert forall|i: int, j: int| 0 <= i < j < m@.blocks.len() implies #[trigger] m@.blocks[i].id < #[trigger] m@.blocks[j].id by {
                assert(m@.blocks[i].id == bids[i]);
                assert(m@.blocks[j].id == bids[j]);
            }
        }
        Some(m)
    }
}

} // verus!
