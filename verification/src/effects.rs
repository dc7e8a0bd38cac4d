//! What each operation changes and what it leaves alone, stated element by
//! element over the store before and after: which notes and blocks move,
//! which stay exactly as they were, and what a new record holds.

use vstd::prelude::*;

use crate::block_source::{DICTATION, POST_PROCESSED};
use crate::changes::{first_default, lemma_first_default, most_recent};
use crate::like::contains_folded;
use crate::model::{BlockView, NoteView, NotesError, SummaryView};
use crate::store::{
    block_admitted, count_blocks, listed_before, next_position_of, restored_seq, rows_in_order, search_text, top_block, touched, StoreView, STARTER_TITLE, UNTITLED,
};
use crate::text::{snippet_of, trim};

verus! {

/// `after` is `before` with the notes whose id is `a` or `b` (if any)
/// marked updated at `now`, and every other note exactly as it was.
pub open spec fn touched_only(before: Seq<NoteView>, after: Seq<NoteView>, a: i64, b: i64, now: i64) -> bool {
    &&& after.len() == before.len()
    &&& forall|k: int|
        0 <= k < before.len() ==> #[trigger] after[k] == if before[k].id == a || before[k].id == b {
            NoteView { updated_at: now, ..before[k] }
        } else {
            before[k]
        }
}

/// `p` is one past the highest position among the blocks of note `note`
/// in `bs`, or 0 when the note has none there.
pub open spec fn one_past_the_end(bs: Seq<BlockView>, note: i64, p: i64) -> bool {
    &&& forall|k: int| 0 <= k < bs.len() && #[trigger] bs[k].note_id == note ==> bs[k].position < p
    &&& (forall|k: int| 0 <= k < bs.len() ==> #[trigger] bs[k].note_id != note) ==> p == 0
    &&& (exists|k: int| 0 <= k < bs.len() && #[trigger] bs[k].note_id == note) ==> exists|k: int|
        0 <= k < bs.len() && #[trigger] bs[k].note_id == note && bs[k].position + 1 == p
}

/// Some block of note `note` in `bs` is at the highest position there is.
pub open spec fn at_top_position(bs: Seq<BlockView>, note: i64) -> bool {
    exists|k: int| 0 <= k < bs.len() && #[trigger] bs[k].note_id == note && bs[k].position == i64::MAX
}

/// A block appended to a note goes one past the note's highest position,
/// or to 0 in a note without blocks; there is no such position exactly when
/// a block of the note is at the highest position there is.
pub proof fn lemma_next_position_is_one_past_the_end(bs: Seq<BlockView>, note: i64)
    ensures
        next_position_of(bs, note) matches Some(p) ==> one_past_the_end(bs, note, p),
        next_position_of(bs, note) is None <==> at_top_position(bs, note),
{
    lemma_top_block_is_top(bs, note, None);
    if top_block(bs, note, None) is Some {
        let m = top_block(bs, note, None)->0;
        assert forall|k: int| 0 <= k < bs.len() && #[trigger] bs[k].note_id == note implies bs[k].position <= bs[m].position by {
            assert(block_admitted(bs[k], None));
        }
    } else {
        assert forall|k: int| 0 <= k < bs.len() implies #[trigger] bs[k].note_id != note by {
            assert(block_admitted(bs[k], None));
        }
    }
}

/// `touched` marks only the named notes.
proof fn lemma_touched_is_touched_only(ns: Seq<NoteView>, a: i64, b: i64, now: i64)
    ensures
        touched_only(ns, touched(ns, a, now), a, a, now),
        touched_only(ns, touched(touched(ns, a, now), b, now), a, b, now),
{
}

/// In a well-formed store the note at `i` is the only one with its id.
proof fn lemma_note_index(s: StoreView, i: int)
    requires
        s.wf(),
        0 <= i < s.notes.len(),
    ensures
        s.has_note(s.notes[i].id),
        s.note_idx(s.notes[i].id) == i,
{
    let id = s.notes[i].id;
    assert(s.notes[i].id == id);
    let j = s.note_idx(id);
    if j < i {
        assert(s.notes[j].id < s.notes[i].id);
    } else if i < j {
        assert(s.notes[i].id < s.notes[j].id);
    }
}

/// In a well-formed store the block at `i` is the only one with its id.
proof fn lemma_block_index(s: StoreView, i: int)
    requires
        s.wf(),
        0 <= i < s.blocks.len(),
    ensures
        s.has_block(s.blocks[i].id),
        s.block_idx(s.blocks[i].id) == i,
{
    let id = s.blocks[i].id;
    assert(s.blocks[i].id == id);
    let j = s.block_idx(id);
    if j < i {
        assert(s.blocks[j].id < s.blocks[i].id);
    } else if i < j {
        assert(s.blocks[i].id < s.blocks[j].id);
    }
}

/// Renaming a note changes that note alone: it gets the requested title
/// (or `UNTITLED` for a blank one) and is updated at `now`; every other note
/// and every block stays exactly as it was. It fails exactly when no note
/// has the id, and then changes nothing.
pub proof fn lemma_rename_note_changes_only_that_note(s: StoreView, id: i64, title: Seq<char>, now: i64)
    ensures
        ({
            let (t, r) = s.rename_note_op(id, title, now);
            &&& (r is Ok <==> exists|i: int| 0 <= i < s.notes.len() && #[trigger] s.notes[i].id == id)
            &&& (r is Err ==> t == s && r == Err::<(), NotesError>(NotesError::NoteNotFound(id)))
            &&& t.blocks == s.blocks
            &&& t.note_seq == s.note_seq
            &&& t.block_seq == s.block_seq
            &&& t.notes.len() == s.notes.len()
            &&& forall|k: int| 0 <= k < s.notes.len() && s.notes[k].id != id ==> #[trigger] t.notes[k] == s.notes[k]
            &&& forall|k: int|
                0 <= k < s.notes.len() && s.notes[k].id == id ==> #[trigger] t.notes[k] == (NoteView {
                    title: if trim(title).len() == 0 {
                        UNTITLED@
                    } else {
                        title
                    },
                    updated_at: now,
                    ..s.notes[k]
                })
        }),
{
}

/// `top_block` is the block of the note admitted by `q` with the highest
/// position, the first of those sharing it; there is none only when no
/// block of the note is admitted.
pub(crate) proof fn lemma_top_block_is_top(bs: Seq<BlockView>, note: i64, q: Option<Seq<char>>)
    ensures
        match top_block(bs, note, q) {
            Some(i) => 0 <= i < bs.len() && bs[i].note_id == note && block_admitted(bs[i], q)
                && forall|k: int|
                0 <= k < bs.len() && (#[trigger] bs[k]).note_id == note && block_admitted(bs[k], q) ==> bs[k].position
                    < bs[i].position || (bs[k].position == bs[i].position && i <= k),
            None => forall|k: int| 0 <= k < bs.len() && (#[trigger] bs[k]).note_id == note ==> !block_admitted(bs[k], q),
        },
    decreases bs.len(),
{
    if bs.len() > 0 {
        let p = bs.drop_last();
        lemma_top_block_is_top(p, note, q);
        assert forall|k: int| 0 <= k < p.len() implies #[trigger] p[k] == bs[k] by {}
        let prev = top_block(p, note, q);
        if prev is Some {
            assert(p[prev->0] == bs[prev->0]);
        }
        match top_block(bs, note, q) {
            Some(i) => {
                assert forall|k: int|
                    0 <= k < bs.len() && (#[trigger] bs[k]).note_id == note && block_admitted(bs[k], q) implies bs[k].position
                    < bs[i].position || (bs[k].position == bs[i].position && i <= k) by {
                    if k < bs.len() - 1 {
                        assert(p[k] == bs[k]);
                    }
                }
            },
            None => {
                assert forall|k: int| 0 <= k < bs.len() && (#[trigger] bs[k]).note_id == note implies !block_admitted(bs[k], q) by {
                    if k < bs.len() - 1 {
                        assert(p[k] == bs[k]);
                    }
                }
            },
        }
    }
}

/// Appending a block stores exactly what was given: the new block holds the
/// given content and source tag, belongs to the given note, is created at
/// `now`, takes the next block id and goes one past the note's highest
/// position (0 in a note without blocks). It is added after every block,
/// which all stay as they were; of the notes only the given one is marked
/// updated. It fails only when the note's highest position or the block ids
/// are used up, and then changes nothing.
pub proof fn lemma_append_block_stores_what_was_given(
    s: StoreView,
    note: i64,
    content: Seq<char>,
    source: Seq<char>,
    now: i64,
)
    requires
        s.wf(),
    ensures
        ({
            let (t, r) = s.append_block_op(note, content, source, now);
            let at_top = at_top_position(s.blocks, note);
            &&& (r == Err::<BlockView, NotesError>(NotesError::PositionOverflow) <==> at_top)
            &&& (r == Err::<BlockView, NotesError>(NotesError::BlockIdsExhausted) <==> !at_top && s.block_seq == i64::MAX)
            &&& (r is Err ==> t == s)
            &&& (r matches Ok(b) ==> {
                &&& b.content == content
                &&& b.source == source
                &&& b.note_id == note
                &&& b.created_at == now
                &&& b.id == s.block_seq + 1
                &&& t.blocks == s.blocks.push(b)
                &&& t.block_seq == b.id
                &&& t.note_seq == s.note_seq
                &&& touched_only(s.notes, t.notes, note, note, now)
                &&& one_past_the_end(s.blocks, note, b.position)
            })
        }),
{
    lemma_next_position_is_one_past_the_end(s.blocks, note);
    lemma_touched_is_touched_only(s.notes, note, note, now);
}

/// Deleting a block removes that block and nothing else: the blocks
/// afterwards are the blocks before with the one at its index taken out,
/// and of the notes only the block's own is marked updated. It fails
/// exactly when no block has the id, and then changes nothing.
pub proof fn lemma_delete_block_removes_only_that_block(s: StoreView, id: i64, now: i64)
    requires
        s.wf(),
    ensures
        ({
            let (t, r) = s.delete_block_op(id, now);
            &&& (r is Ok <==> exists|i: int| 0 <= i < s.blocks.len() && #[trigger] s.blocks[i].id == id)
            &&& (r is Err ==> t == s && r == Err::<(), NotesError>(NotesError::BlockNotFound(id)))
            &&& forall|i: int|
                0 <= i < s.blocks.len() && #[trigger] s.blocks[i].id == id ==> {
                    &&& t.blocks == s.blocks.remove(i)
                    &&& touched_only(s.notes, t.notes, s.blocks[i].note_id, s.blocks[i].note_id, now)
                    &&& t.note_seq == s.note_seq
                    &&& t.block_seq == s.block_seq
                }
        }),
{
    assert forall|i: int| 0 <= i < s.blocks.len() && #[trigger] s.blocks[i].id == id implies s.block_idx(id) == i by {
        lemma_block_index(s, i);
    }
    if s.has_block(id) {
        lemma_touched_is_touched_only(s.notes, s.blocks[s.block_idx(id)].note_id, s.blocks[s.block_idx(id)].note_id, now);
    }
}

/// Block `m` of `bs` is the last block of note `note` that contains `t`
/// (that is, ASCII letters aside from case) or, without `t`, the last block
/// of the note: no such block has a higher position, and of those sharing
/// its position it comes first.
pub open spec fn is_last_block(bs: Seq<BlockView>, note: i64, t: Option<Seq<char>>, m: int) -> bool {
    &&& 0 <= m < bs.len()
    &&& bs[m].note_id == note
    &&& (t matches Some(x) ==> contains_folded(bs[m].content, x))
    &&& forall|k: int|
        0 <= k < bs.len() && #[trigger] bs[k].note_id == note && (t matches Some(x) ==> contains_folded(
            bs[k].content,
            x,
        )) ==> bs[k].position < bs[m].position || (bs[k].position == bs[m].position && m <= k)
}

/// Some row of `rows` is of note `id`.
pub open spec fn has_row(rows: Seq<SummaryView>, id: i64) -> bool {
    exists|j: int| 0 <= j < rows.len() && #[trigger] rows[j].id == id
}

/// Some block of note `note` in `bs` contains `t`.
pub open spec fn has_block_containing(bs: Seq<BlockView>, note: i64, t: Seq<char>) -> bool {
    exists|k: int| 0 <= k < bs.len() && #[trigger] bs[k].note_id == note && contains_folded(bs[k].content, t)
}

/// `count_blocks` counts the blocks of the note.
proof fn lemma_count_is_filter_len(bs: Seq<BlockView>, note: i64)
    ensures
        count_blocks(bs, note) == bs.filter(|b: BlockView| b.note_id == note).len(),
    decreases bs.len(),
{
    reveal_with_fuel(Seq::<_>::filter, 1);
    if bs.len() > 0 {
        lemma_count_is_filter_len(bs.drop_last(), note);
    }
}

/// `top_block` picks the block that `is_last_block` describes.
proof fn lemma_top_block_is_last_block(bs: Seq<BlockView>, note: i64, q: Option<Seq<char>>)
    ensures
        top_block(bs, note, q) matches Some(m) ==> is_last_block(bs, note, q, m),
        q matches Some(t) ==> (has_block_containing(bs, note, t) <==> top_block(bs, note, q) is Some),
        top_block(bs, note, None) is None <==> forall|k: int| 0 <= k < bs.len() ==> #[trigger] bs[k].note_id != note,
{
    lemma_top_block_is_top(bs, note, q);
    lemma_top_block_is_top(bs, note, None);
    if top_block(bs, note, q) is Some {
        let m = top_block(bs, note, q)->0;
        assert forall|k: int|
            0 <= k < bs.len() && #[trigger] bs[k].note_id == note && (q matches Some(x) ==> contains_folded(bs[k].content, x))
            implies bs[k].position < bs[m].position || (bs[k].position == bs[m].position && m <= k) by {
            assert(block_admitted(bs[k], q));
        }
    }
    if q is Some {
        if has_block_containing(bs, note, q->0) {
            let k = choose|k: int| 0 <= k < bs.len() && #[trigger] bs[k].note_id == note && contains_folded(bs[k].content, q->0);
            assert(block_admitted(bs[k], q));
        }
        if top_block(bs, note, q) is Some {
            let m = top_block(bs, note, q)->0;
            assert(bs[m].note_id == note);
        }
    }
    if top_block(bs, note, None) is Some {
        let m = top_block(bs, note, None)->0;
        assert(bs[m].note_id == note);
    } else {
        assert forall|k: int| 0 <= k < bs.len() implies #[trigger] bs[k].note_id != note by {
            assert(block_admitted(bs[k], None));
        }
    }
}

/// Each row of the note list describes its note: the note's id, title,
/// default flag and update time; its number of blocks; and as snippet that
/// of the note's last block containing the search text, whether or not the
/// title contains the text too, or, where no block contains it or no text
/// is given, that of the note's last block (of nothing, for a note without
/// blocks).
pub proof fn lemma_listed_row_describes_its_note(s: StoreView, q: Option<Seq<char>>, rows: Seq<SummaryView>, r: int)
    requires
        s.lists(q, rows),
        0 <= r < rows.len(),
    ensures
        exists|k: int|
            0 <= k < s.notes.len() && #[trigger] s.notes[k].id == rows[r].id && s.notes[k].title == rows[r].title
                && s.notes[k].is_default == rows[r].is_default && s.notes[k].updated_at == rows[r].updated_at,
        rows[r].block_count == s.blocks.filter(|b: BlockView| b.note_id == rows[r].id).len() as i64,
        match q {
            Some(t) => has_block_containing(s.blocks, rows[r].id, t) ==> exists|m: int|
                is_last_block(s.blocks, rows[r].id, q, m) && rows[r].snippet == snippet_of(#[trigger] s.blocks[m].content),
            None => true,
        },
        (match q {
            Some(t) => !has_block_containing(s.blocks, rows[r].id, t),
            None => true,
        }) ==> {
            ||| exists|m: int| is_last_block(s.blocks, rows[r].id, None, m) && rows[r].snippet == snippet_of(#[trigger] s.blocks[m].content)
            ||| (forall|k: int| 0 <= k < s.blocks.len() ==> #[trigger] s.blocks[k].note_id != rows[r].id)
                && rows[r].snippet == snippet_of(Seq::<char>::empty())
        },
{
    assert(s.is_row(q, rows[r]));
    let k = choose|k: int|
        0 <= k < s.notes.len() && s.shown(s.notes[k], q) && rows[r] == #[trigger] s.summary_of(s.notes[k], q);
    let id = s.notes[k].id;
    assert(s.notes[k].id == rows[r].id);
    lemma_count_is_filter_len(s.blocks, id);
    lemma_top_block_is_last_block(s.blocks, id, q);
    lemma_top_block_is_last_block(s.blocks, id, None);
    if top_block(s.blocks, id, q) is Some {
        let m = top_block(s.blocks, id, q)->0;
        assert(is_last_block(s.blocks, id, q, m) && rows[r].snippet == snippet_of(s.blocks[m].content));
    }
    if top_block(s.blocks, id, None) is Some {
        let m = top_block(s.blocks, id, None)->0;
        assert(is_last_block(s.blocks, id, None, m));
    }
}

/// A search for a non-blank query lists the notes whose title or some block
/// contains the trimmed query; the row of a note with a block containing it
/// shows the snippet of the last such block, even when the title contains
/// the query too.
pub proof fn lemma_search_shows_last_matching_block(s: StoreView, query: Seq<char>, rows: Seq<SummaryView>, r: int)
    requires
        s.lists(search_text(query), rows),
        trim(query).len() > 0,
        0 <= r < rows.len(),
    ensures
        exists|k: int|
            0 <= k < s.notes.len() && #[trigger] s.notes[k].id == rows[r].id && (contains_folded(s.notes[k].title, trim(query))
                || has_block_containing(s.blocks, rows[r].id, trim(query))),
        has_block_containing(s.blocks, rows[r].id, trim(query)) ==> exists|m: int|
            is_last_block(s.blocks, rows[r].id, Some(trim(query)), m) && rows[r].snippet == snippet_of(#[trigger] s.blocks[m].content),
        forall|k: int|
            0 <= k < s.notes.len() && (contains_folded(s.notes[k].title, trim(query)) || has_block_containing(
                s.blocks,
                s.notes[k].id,
                trim(query),
            )) ==> has_row(rows, s.notes[k].id),
{
    let q = search_text(query);
    assert(q == Some(trim(query)));
    lemma_listed_row_describes_its_note(s, q, rows, r);
    assert(s.is_row(q, rows[r]));
    let k = choose|k: int|
        0 <= k < s.notes.len() && s.shown(s.notes[k], q) && rows[r] == #[trigger] s.summary_of(s.notes[k], q);
    lemma_top_block_is_last_block(s.blocks, s.notes[k].id, q);
    assert(s.notes[k].id == rows[r].id);
    assert forall|k: int|
        0 <= k < s.notes.len() && (contains_folded(s.notes[k].title, trim(query)) || has_block_containing(
            s.blocks,
            s.notes[k].id,
            trim(query),
        )) implies has_row(rows, s.notes[k].id) by {
        lemma_top_block_is_last_block(s.blocks, s.notes[k].id, q);
        assert(s.shown(s.notes[k], q));
        let j = choose|j: int| 0 <= j < rows.len() && rows[j] == s.summary_of(s.notes[k], q);
        assert(rows[j].id == s.notes[k].id);
    }
}

/// The note list holds one row per note, no more: without a search text
/// every note has a row, and no two rows are of the same note.
pub proof fn lemma_list_has_one_row_per_note(s: StoreView, rows: Seq<SummaryView>)
    requires
        s.wf(),
        s.lists(None, rows),
    ensures
        forall|k: int| 0 <= k < s.notes.len() ==> has_row(rows, (#[trigger] s.notes[k]).id),
        forall|i: int, j: int| 0 <= i < j < rows.len() ==> #[trigger] rows[i].id != #[trigger] rows[j].id,
{
    assert forall|k: int| 0 <= k < s.notes.len() implies has_row(rows, (#[trigger] s.notes[k]).id) by {
        assert(s.shown(s.notes[k], None));
        assert(rows.contains(s.summary_of(s.notes[k], None)));
        let j = choose|j: int| 0 <= j < rows.len() && rows[j] == s.summary_of(s.notes[k], None);
        assert(rows[j].id == s.notes[k].id);
    }
    assert forall|i: int, j: int| 0 <= i < j < rows.len() implies #[trigger] rows[i].id != #[trigger] rows[j].id by {
        lemma_rows_are_of_distinct_notes(s, rows, i, j);
    }
}

/// The note list puts the default note first, then the notes updated
/// most recently, and of notes updated at the same time the lower id
/// first.
pub proof fn lemma_list_order(s: StoreView, q: Option<Seq<char>>, rows: Seq<SummaryView>)
    requires
        s.lists(q, rows),
    ensures
        forall|i: int, j: int|
            0 <= i < j < rows.len() ==> {
                &&& (#[trigger] rows[j]).is_default ==> (#[trigger] rows[i]).is_default
                &&& rows[i].is_default == rows[j].is_default ==> rows[i].updated_at >= rows[j].updated_at
                &&& rows[i].is_default == rows[j].is_default && rows[i].updated_at == rows[j].updated_at ==> rows[i].id < rows[j].id
            },
{
    assert forall|i: int, j: int| 0 <= i < j < rows.len() implies {
        &&& (#[trigger] rows[j]).is_default ==> (#[trigger] rows[i]).is_default
        &&& rows[i].is_default == rows[j].is_default ==> rows[i].updated_at >= rows[j].updated_at
        &&& rows[i].is_default == rows[j].is_default && rows[i].updated_at == rows[j].updated_at ==> rows[i].id < rows[j].id
    } by {
        assert(listed_before(rows[i], rows[j]));
    }
}

/// Two rows of the note list are never of the same note.
proof fn lemma_rows_are_of_distinct_notes(s: StoreView, rows: Seq<SummaryView>, i: int, j: int)
    requires
        s.wf(),
        s.lists(None, rows),
        0 <= i < j < rows.len(),
    ensures
        rows[i].id != rows[j].id,
{
    assert(listed_before(rows[i], rows[j]));
    assert(s.is_row(None, rows[i]));
    assert(s.is_row(None, rows[j]));
    let a = choose|a: int| 0 <= a < s.notes.len() && s.shown(s.notes[a], None) && rows[i] == #[trigger] s.summary_of(s.notes[a], None);
    let b = choose|b: int| 0 <= b < s.notes.len() && s.shown(s.notes[b], None) && rows[j] == #[trigger] s.summary_of(s.notes[b], None);
    if rows[i].id == rows[j].id {
        lemma_note_index(s, a);
        lemma_note_index(s, b);
        assert(a == b);
    }
}

/// `most_recent` is the note updated last, the first of those sharing its
/// update time.
proof fn lemma_most_recent_is_latest(ns: Seq<NoteView>)
    ensures
        match most_recent(ns) {
            Some(i) => 0 <= i < ns.len() && forall|j: int|
                0 <= j < ns.len() ==> (#[trigger] ns[j]).updated_at < ns[i].updated_at || (ns[j].updated_at
                    == ns[i].updated_at && i <= j),
            None => ns.len() == 0,
        },
    decreases ns.len(),
{
    if ns.len() > 0 {
        let p = ns.drop_last();
        lemma_most_recent_is_latest(p);
        assert forall|k: int| 0 <= k < p.len() implies #[trigger] p[k] == ns[k] by {}
        let prev = most_recent(p);
        if prev is Some {
            assert(p[prev->0] == ns[prev->0]);
        }
        let i = most_recent(ns)->0;
        assert forall|j: int| 0 <= j < ns.len() implies (#[trigger] ns[j]).updated_at < ns[i].updated_at || (ns[j].updated_at
            == ns[i].updated_at && i <= j) by {
            if j < ns.len() - 1 {
                assert(p[j] == ns[j]);
            }
        }
    }
}

/// Creating a note adds one note after all others, with the next note id,
/// the requested title (or `UNTITLED` for a blank one), not the default,
/// created and updated at `now`; nothing else changes. It fails exactly
/// when the note ids are used up, and then changes nothing.
pub proof fn lemma_create_note_adds_one_note(s: StoreView, title: Seq<char>, now: i64)
    ensures
        ({
            let (t, r) = s.create_note_op(title, now);
            &&& (r is Err <==> s.note_seq == i64::MAX)
            &&& (r is Err ==> t == s && r == Err::<NoteView, NotesError>(NotesError::NoteIdsExhausted))
            &&& (r matches Ok(n) ==> {
                &&& n.id == s.note_seq + 1
                &&& n.title == if trim(title).len() == 0 {
                    UNTITLED@
                } else {
                    title
                }
                &&& !n.is_default
                &&& n.created_at == now
                &&& n.updated_at == now
                &&& t.notes == s.notes.push(n)
                &&& t.note_seq == n.id
                &&& t.blocks == s.blocks
                &&& t.block_seq == s.block_seq
            })
        }),
{
}

/// Deleting a note removes that note and exactly its blocks: the notes
/// afterwards are the notes before with the one at its index taken out, and
/// the blocks are those of the other notes, in the same order. The default
/// note is refused, and so is an id no note has; a refusal changes nothing.
pub proof fn lemma_delete_note_removes_note_and_its_blocks(s: StoreView, id: i64)
    requires
        s.wf(),
    ensures
        ({
            let (t, r) = s.delete_note_op(id);
            &&& (r is Err ==> t == s)
            &&& (!(exists|i: int| 0 <= i < s.notes.len() && #[trigger] s.notes[i].id == id) ==> r
                == Err::<(), NotesError>(NotesError::NoteNotFound(id)))
            &&& forall|i: int|
                0 <= i < s.notes.len() && #[trigger] s.notes[i].id == id ==> {
                    &&& s.notes[i].is_default ==> r == Err::<(), NotesError>(NotesError::DefaultNoteUndeletable)
                    &&& !s.notes[i].is_default ==> {
                        &&& r == Ok::<(), NotesError>(())
                        &&& t.notes == s.notes.remove(i)
                        &&& t.blocks == s.blocks.filter(|b: BlockView| b.note_id != id)
                        &&& t.note_seq == s.note_seq
                        &&& t.block_seq == s.block_seq
                    }
                }
        }),
{
    assert forall|i: int| 0 <= i < s.notes.len() && #[trigger] s.notes[i].id == id implies s.note_idx(id) == i by {
        lemma_note_index(s, i);
    }
}

/// Setting the default note flags that note and clears the flag of every
/// other; nothing else of any note, and no block, changes. It fails exactly
/// when no note has the id, and then changes nothing.
pub proof fn lemma_set_default_note_changes_only_flags(s: StoreView, id: i64)
    ensures
        ({
            let (t, r) = s.set_default_note_op(id);
            &&& (r is Ok <==> exists|i: int| 0 <= i < s.notes.len() && #[trigger] s.notes[i].id == id)
            &&& (r is Err ==> t == s && r == Err::<(), NotesError>(NotesError::NoteNotFound(id)))
            &&& t.blocks == s.blocks
            &&& t.note_seq == s.note_seq
            &&& t.block_seq == s.block_seq
            &&& t.notes.len() == s.notes.len()
            &&& r is Ok ==> forall|k: int|
                0 <= k < s.notes.len() ==> #[trigger] t.notes[k] == (NoteView { is_default: s.notes[k].id == id, ..s.notes[k] })
        }),
{
}

/// Making sure of a default note changes only default flags, or adds the
/// starter note to a store without notes. When some note is the default,
/// the first of them stays so and every other loses its flag; else the note
/// updated last (the first of those) becomes the default; else a starter
/// note is created as the default with the next note id. No block changes.
/// It fails only for a store without notes whose note ids are used up, and
/// then changes nothing.
pub proof fn lemma_ensure_default_note_changes_only_flags(s: StoreView, now: i64)
    requires
        s.wf(),
    ensures
        ({
            let (t, r) = s.ensure_default_note_op(now);
            &&& t.blocks == s.blocks
            &&& t.block_seq == s.block_seq
            &&& (r is Err <==> s.notes.len() == 0 && s.note_seq == i64::MAX)
            &&& (r is Err ==> t == s && r == Err::<i64, NotesError>(NotesError::NoteIdsExhausted))
            &&& match r {
                Ok(id) => {
                    &&& s.notes.len() > 0 ==> {
                        &&& t.note_seq == s.note_seq
                        &&& t.notes.len() == s.notes.len()
                        &&& forall|k: int|
                            0 <= k < s.notes.len() ==> #[trigger] t.notes[k] == (NoteView {
                                is_default: s.notes[k].id == id,
                                ..s.notes[k]
                            })
                    }
                    &&& (exists|j: int| 0 <= j < s.notes.len() && (#[trigger] s.notes[j]).is_default) ==> exists|i: int|
                        0 <= i < s.notes.len() && #[trigger] s.notes[i].id == id && s.notes[i].is_default && forall|j: int|
                            0 <= j < i ==> !(#[trigger] s.notes[j]).is_default
                    &&& (s.notes.len() > 0 && forall|j: int| 0 <= j < s.notes.len() ==> !(#[trigger] s.notes[j]).is_default)
                        ==> exists|i: int|
                        0 <= i < s.notes.len() && #[trigger] s.notes[i].id == id && forall|j: int|
                            0 <= j < s.notes.len() ==> (#[trigger] s.notes[j]).updated_at < s.notes[i].updated_at || (
                            s.notes[j].updated_at == s.notes[i].updated_at && i <= j)
                    &&& s.notes.len() == 0 ==> {
                        &&& id == s.note_seq + 1
                        &&& t.note_seq == id
                        &&& t.notes == seq![NoteView { id, title: STARTER_TITLE@, is_default: true, created_at: now, updated_at: now }]
                    }
                },
                Err(_) => true,
            }
        }),
{
    lemma_first_default(s.notes);
    lemma_most_recent_is_latest(s.notes);
    let (t, r) = s.ensure_default_note_op(now);
    match first_default(s.notes) {
        Some(i) => {
            assert(s.notes[i].id == s.notes[i].id);
        },
        None => match most_recent(s.notes) {
            Some(i) => {
                assert(s.notes[i].id == s.notes[i].id);
                assert forall|k: int| 0 <= k < s.notes.len() implies #[trigger] t.notes[k] == (NoteView {
                    is_default: s.notes[k].id == s.notes[i].id,
                    ..s.notes[k]
                }) by {
                    if k != i {
                        lemma_note_index(s, k);
                        lemma_note_index(s, i);
                    }
                }
            },
            None => {
                if r is Ok {
                    assert(t.notes =~= seq![NoteView { id: r->Ok_0, title: STARTER_TITLE@, is_default: true, created_at: now, updated_at: now }]);
                }
            },
        },
    }
}

/// Replacing a block's content changes that block alone: it takes the given
/// content, and the given source tag when there is one, keeping its id,
/// note, position and creation time; every other block stays as it was and
/// of the notes only the block's own is marked updated. It fails exactly
/// when no block has the id, and then changes nothing.
pub proof fn lemma_edit_block_changes_only_that_block(
    s: StoreView,
    id: i64,
    content: Seq<char>,
    source: Option<Seq<char>>,
    now: i64,
)
    requires
        s.wf(),
    ensures
        ({
            let (t, r) = s.edit_block_op(id, content, source, now);
            &&& (r is Ok <==> exists|i: int| 0 <= i < s.blocks.len() && #[trigger] s.blocks[i].id == id)
            &&& (r is Err ==> t == s && r == Err::<BlockView, NotesError>(NotesError::BlockNotFound(id)))
            &&& forall|i: int|
                0 <= i < s.blocks.len() && #[trigger] s.blocks[i].id == id ==> {
                    let b = BlockView {
                        content,
                        source: match source {
                            Some(x) => x,
                            None => s.blocks[i].source,
                        },
                        ..s.blocks[i]
                    };
                    &&& r == Ok::<BlockView, NotesError>(b)
                    &&& t.blocks == s.blocks.update(i, b)
                    &&& touched_only(s.notes, t.notes, s.blocks[i].note_id, s.blocks[i].note_id, now)
                    &&& t.note_seq == s.note_seq
                    &&& t.block_seq == s.block_seq
                }
        }),
{
    assert forall|i: int| 0 <= i < s.blocks.len() && #[trigger] s.blocks[i].id == id implies s.block_idx(id) == i by {
        lemma_block_index(s, i);
    }
    if s.has_block(id) {
        lemma_touched_is_touched_only(s.notes, s.blocks[s.block_idx(id)].note_id, s.blocks[s.block_idx(id)].note_id, now);
    }
}

/// Moving a block changes that block alone: it keeps its id, content,
/// source and creation time, and goes to the given note one past the
/// highest position there; every other block stays as it was, and of the
/// notes only the block's old note and the target are marked updated. It
/// fails when no block has the id, when no note is the target, or when the
/// target's highest position is the largest there is; a failure changes
/// nothing.
pub proof fn lemma_move_block_changes_only_that_block(s: StoreView, id: i64, target: i64, now: i64)
    requires
        s.wf(),
    ensures
        ({
            let (t, r) = s.move_block_op(id, target, now);
            let has_target = exists|j: int| 0 <= j < s.notes.len() && #[trigger] s.notes[j].id == target;
            &&& (r is Err ==> t == s)
            &&& (!(exists|i: int| 0 <= i < s.blocks.len() && #[trigger] s.blocks[i].id == id) ==> r
                == Err::<BlockView, NotesError>(NotesError::BlockNotFound(id)))
            &&& forall|i: int|
                0 <= i < s.blocks.len() && #[trigger] s.blocks[i].id == id ==> {
                    &&& !has_target ==> r == Err::<BlockView, NotesError>(NotesError::TargetNoteNotFound(target))
                    &&& has_target ==> (r == Err::<BlockView, NotesError>(NotesError::PositionOverflow) <==> at_top_position(
                        s.blocks,
                        target,
                    ))
                    &&& has_target ==> (r is Ok || r == Err::<BlockView, NotesError>(NotesError::PositionOverflow))
                    &&& r matches Ok(b) ==> {
                        &&& b == BlockView { note_id: target, position: b.position, ..s.blocks[i] }
                        &&& one_past_the_end(s.blocks, target, b.position)
                        &&& t.blocks == s.blocks.update(i, b)
                        &&& touched_only(s.notes, t.notes, s.blocks[i].note_id, target, now)
                        &&& t.note_seq == s.note_seq
                        &&& t.block_seq == s.block_seq
                    }
                }
        }),
{
    assert forall|i: int| 0 <= i < s.blocks.len() && #[trigger] s.blocks[i].id == id implies s.block_idx(id) == i by {
        lemma_block_index(s, i);
    }
    lemma_next_position_is_one_past_the_end(s.blocks, target);
    if s.has_block(id) {
        lemma_touched_is_touched_only(s.notes, s.blocks[s.block_idx(id)].note_id, target, now);
    }
}

/// Captured text is stored as given: blank text appends nothing and changes
/// nothing; otherwise a successful capture adds one block after all others
/// holding exactly the text, tagged as post-processed or as dictation,
/// created at `now` with the next block id, in the note that is then the
/// one default note. No other block changes.
pub proof fn lemma_append_to_default_stores_what_was_given(s: StoreView, content: Seq<char>, post_processed: bool, now: i64)
    requires
        s.wf(),
    ensures
        ({
            let (t, r) = s.append_to_default_op(content, post_processed, now);
            &&& trim(content).len() == 0 ==> t == s && r == Ok::<Option<BlockView>, NotesError>(None)
            &&& trim(content).len() != 0 ==> r != Ok::<Option<BlockView>, NotesError>(None)
            &&& r matches Ok(Some(b)) ==> {
                &&& b.content == content
                &&& b.source == if post_processed {
                    POST_PROCESSED@
                } else {
                    DICTATION@
                }
                &&& b.created_at == now
                &&& b.id == s.block_seq + 1
                &&& t.blocks == s.blocks.push(b)
                &&& t.block_seq == b.id
                &&& exists|k: int| 0 <= k < t.notes.len() && #[trigger] t.notes[k].id == b.note_id
                &&& forall|k: int| 0 <= k < t.notes.len() ==> ((#[trigger] t.notes[k]).is_default <==> t.notes[k].id == b.note_id)
            }
        }),
{
    if trim(content).len() != 0 {
        lemma_ensure_default_note_changes_only_flags(s, now);
        crate::laws::lemma_capture_lands_in_default_note(s, content, post_processed, now);
        let (s1, r1) = s.ensure_default_note_op(now);
        if r1 is Ok {
            lemma_append_block_stores_what_was_given(s1, r1->Ok_0, content, crate::changes::capture_source(post_processed), now);
        }
    }
}

/// What is left of a block's text once the characters `[st, en)` are cut
/// out: the two sides trimmed at their outer ends, each kept as it is
/// inside, joined by one space when both hold text.
pub open spec fn rest_after_cut(text: Seq<char>, st: int, en: int) -> Seq<char> {
    let before = trim(text.take(st));
    let after = trim(text.skip(en));
    if before.len() == 0 {
        after
    } else if after.len() == 0 {
        before
    } else {
        before + seq![' '] + after
    }
}

/// What splitting block `i` of `s` at `[start, end)` (cut to its text) into
/// note `target` gives, as `t` and `r`: the new block holds exactly the
/// selected characters, in the target note one past its highest position,
/// with the old block's source tag, the next block id and created at `now`;
/// block `i` keeps the rest of its text or, when nothing is left, is
/// removed; every other block stays as it was, and of the notes only the
/// block's own and the target are marked updated.
pub open spec fn split_outcome(
    s: StoreView,
    i: int,
    start: usize,
    end: usize,
    target: i64,
    now: i64,
    t: StoreView,
    r: Result<BlockView, NotesError>,
) -> bool {
    let has_target = exists|j: int| 0 <= j < s.notes.len() && #[trigger] s.notes[j].id == target;
    let old = s.blocks[i];
    let n = old.content.len() as int;
    let st: int = if start < n {
        start as int
    } else {
        n
    };
    let en: int = if end < st {
        st
    } else if end > n {
        n
    } else {
        end as int
    };
    let rest = rest_after_cut(old.content, st, en);
    let kept = if rest.len() == 0 {
        s.blocks.remove(i)
    } else {
        s.blocks.update(i, BlockView { content: rest, ..old })
    };
    &&& !has_target ==> r == Err::<BlockView, NotesError>(NotesError::TargetNoteNotFound(target))
    &&& has_target && st == en ==> r == Err::<BlockView, NotesError>(NotesError::EmptySelection)
    &&& has_target && st < en && s.block_seq < i64::MAX && !at_top_position(kept, target) ==> r is Ok
    &&& r matches Ok(b) ==> {
        &&& b.content == old.content.subrange(st, en)
        &&& b.source == old.source
        &&& b.note_id == target
        &&& b.created_at == now
        &&& b.id == s.block_seq + 1
        &&& t.blocks == kept.push(b)
        &&& one_past_the_end(kept, target, b.position)
        &&& touched_only(s.notes, t.notes, old.note_id, target, now)
        &&& t.note_seq == s.note_seq
        &&& t.block_seq == b.id
    }
}

/// Splitting a block moves exactly the selected characters into a new
/// block and leaves the rest, as `split_outcome` says, for the block with
/// the given id. It fails when no block has the id, no note is the target
/// or the selection is empty; a failure changes nothing.
pub proof fn lemma_split_moves_exactly_the_selection(
    s: StoreView,
    id: i64,
    start: usize,
    end: usize,
    target: i64,
    now: i64,
)
    requires
        s.wf(),
    ensures
        ({
            let (t, r) = s.split_and_move_block_op(id, start, end, target, now);
            &&& (r is Err ==> t == s)
            &&& (!(exists|i: int| 0 <= i < s.blocks.len() && #[trigger] s.blocks[i].id == id) ==> r
                == Err::<BlockView, NotesError>(NotesError::BlockNotFound(id)))
            &&& forall|i: int|
                0 <= i < s.blocks.len() && #[trigger] s.blocks[i].id == id ==> split_outcome(s, i, start, end, target, now, t, r)
        }),
{
    let (t, r) = s.split_and_move_block_op(id, start, end, target, now);
    assert forall|i: int| 0 <= i < s.blocks.len() && #[trigger] s.blocks[i].id == id implies split_outcome(
        s,
        i,
        start,
        end,
        target,
        now,
        t,
        r,
    ) by {
        lemma_block_index(s, i);
        lemma_split_at(s, i, start, end, target, now);
    }
}

/// `split_outcome` holds of the block at `i`.
proof fn lemma_split_at(s: StoreView, i: int, start: usize, end: usize, target: i64, now: i64)
    requires
        s.wf(),
        0 <= i < s.blocks.len(),
    ensures
        ({
            let (t, r) = s.split_and_move_block_op(s.blocks[i].id, start, end, target, now);
            split_outcome(s, i, start, end, target, now, t, r)
        }),
{
    lemma_block_index(s, i);
    let old = s.blocks[i];
    let n = old.content.len() as int;
    let st: int = if start < n {
        start as int
    } else {
        n
    };
    let en: int = if end < st {
        st
    } else if end > n {
        n
    } else {
        end as int
    };
    assert(crate::changes::selection_range(old.content.len(), start, end) == (st, en));
    crate::laws::lemma_remainder_keeps_both_sides(old.content.take(st), old.content.skip(en));
    let rest = crate::text::remainder_of(old.content.take(st), old.content.skip(en));
    assert(rest == rest_after_cut(old.content, st, en));
    let kept = if rest_after_cut(old.content, st, en).len() == 0 {
        s.blocks.remove(i)
    } else {
        s.blocks.update(i, BlockView { content: rest_after_cut(old.content, st, en), ..old })
    };
    lemma_next_position_is_one_past_the_end(kept, target);
    lemma_touched_is_touched_only(s.notes, old.note_id, target, now);
}

/// A store read back hands out no id that is in use or below the stored
/// sequence value: its sequence is the largest of that value, 0 and the
/// ids in use.
pub proof fn lemma_restored_seq_is_the_largest(seq: i64, ids: Seq<i64>)
    requires
        rows_in_order(ids),
    ensures
        restored_seq(seq, ids) >= seq,
        restored_seq(seq, ids) >= 0,
        forall|i: int| 0 <= i < ids.len() ==> #[trigger] ids[i] <= restored_seq(seq, ids),
        restored_seq(seq, ids) == seq || restored_seq(seq, ids) == 0 || exists|i: int|
            0 <= i < ids.len() && #[trigger] ids[i] == restored_seq(seq, ids),
{
    if ids.len() > 0 {
        assert(ids[ids.len() - 1] == ids.last());
        assert forall|i: int| 0 <= i < ids.len() implies #[trigger] ids[i] <= ids.last() by {
            if i < ids.len() - 1 {
                assert(ids[i] < ids[ids.len() - 1]);
            }
        }
    }
}

/// Deleting the block that `append_block` just added gives back the blocks
/// as they were before it.
pub proof fn lemma_delete_block_undoes_append_block(
    s: StoreView,
    note: i64,
    content: Seq<char>,
    source: Seq<char>,
    now: i64,
    later: i64,
)
    requires
        s.wf(),
    ensures
        s.append_block_op(note, content, source, now).1 matches Ok(b) ==> ({
            let t = s.append_block_op(note, content, source, now).0;
            let (u, r) = t.delete_block_op(b.id, later);
            &&& r is Ok
            &&& u.blocks == s.blocks
        }),
{
    let (t, r) = s.append_block_op(note, content, source, now);
    if r is Ok {
        let b = r->Ok_0;
        lemma_append_block_stores_what_was_given(s, note, content, source, now);
        let n = s.blocks.len() as int;
        assert(t.blocks[n] == b);
        assert(t.wf()) by {
            assert forall|i: int, j: int| 0 <= i < j < t.blocks.len() implies #[trigger] t.blocks[i].id < #[trigger] t.blocks[j].id by {
                if j == n {
                    assert(t.blocks[i] == s.blocks[i]);
                } else {
                    assert(t.blocks[i] == s.blocks[i]);
                    assert(t.blocks[j] == s.blocks[j]);
                }
            }
            assert forall|i: int| 0 <= i < t.blocks.len() implies #[trigger] t.blocks[i].id <= t.block_seq by {
                if i < n {
                    assert(t.blocks[i] == s.blocks[i]);
                }
            }
            assert forall|i: int| 0 <= i < t.notes.len() implies #[trigger] t.notes[i].id <= t.note_seq by {
                assert(t.notes[i].id == s.notes[i].id);
            }
            assert forall|i: int, j: int| 0 <= i < j < t.notes.len() implies #[trigger] t.notes[i].id < #[trigger] t.notes[j].id by {
                assert(t.notes[i].id == s.notes[i].id);
                assert(t.notes[j].id == s.notes[j].id);
            }
        }
        lemma_delete_block_removes_only_that_block(t, b.id, later);
        assert(t.blocks.remove(n) =~= s.blocks);
    }
}

} // verus!
