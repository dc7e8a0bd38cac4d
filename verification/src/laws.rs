//! Properties of the notes store that span operations, proved over the
//! operations' specifications.

use vstd::prelude::*;

use crate::changes::{first_default, lemma_first_default, lemma_most_recent_in_range, most_recent, selection_range};
use crate::model::{BlockView, NoteView, NotesError, SummaryView};
use crate::store::{block_admitted, next_position_of, search_text, top_block, touched, StoreView};
use crate::text::{
    collapse_ws, is_ws, lemma_ltrim_append, lemma_ltrim_idempotent, lemma_ltrim_keeps_end,
    lemma_rtrim_append, lemma_rtrim_idempotent, lemma_rtrim_is_prefix, lemma_rtrim_keeps_start, lemma_trim_commutes,
    lemma_trim_shape, ltrim, remainder_of, rtrim, snippet_of, trim, SNIPPET_CHARS,
};

verus! {

/// At most one note of `ns` is the default.
pub open spec fn at_most_one_default(ns: Seq<NoteView>) -> bool {
    forall|i: int, j: int|
        0 <= i < ns.len() && 0 <= j < ns.len() && (#[trigger] ns[i]).is_default && (#[trigger] ns[j]).is_default ==> i == j
}

/// Note `id` is in `ns` and is its only default note.
pub open spec fn sole_default(ns: Seq<NoteView>, id: i64) -> bool {
    &&& exists|i: int| 0 <= i < ns.len() && #[trigger] ns[i].id == id
    &&& forall|i: int| 0 <= i < ns.len() ==> ((#[trigger] ns[i]).is_default <==> ns[i].id == id)
}

/// Ids of the default notes of `ns`.
pub open spec fn default_ids(ns: Seq<NoteView>) -> Set<i64> {
    Set::new(|id: i64| exists|i: int| 0 <= i < ns.len() && #[trigger] ns[i].id == id && ns[i].is_default)
}

proof fn lemma_touched_keeps_defaults(ns: Seq<NoteView>, id: i64, now: i64)
    ensures
        touched(ns, id, now).len() == ns.len(),
        forall|i: int| 0 <= i < ns.len() ==> (#[trigger] touched(ns, id, now)[i]).id == ns[i].id
            && touched(ns, id, now)[i].is_default == ns[i].is_default,
        default_ids(touched(ns, id, now)) == default_ids(ns),
        at_most_one_default(ns) ==> at_most_one_default(touched(ns, id, now)),
{
    let t = touched(ns, id, now);
    assert forall|i: int| 0 <= i < ns.len() implies (#[trigger] t[i]).id == ns[i].id && t[i].is_default == ns[i].is_default by {}
    assert(default_ids(t) =~= default_ids(ns)) by {
        assert forall|x: i64| default_ids(t).contains(x) == default_ids(ns).contains(x) by {
            if default_ids(t).contains(x) {
                let i = choose|i: int| 0 <= i < t.len() && #[trigger] t[i].id == x && t[i].is_default;
                assert(ns[i].id == x && ns[i].is_default);
            }
            if default_ids(ns).contains(x) {
                let i = choose|i: int| 0 <= i < ns.len() && #[trigger] ns[i].id == x && ns[i].is_default;
                assert(t[i].id == x && t[i].is_default);
            }
        }
    }
}

/// Once `set_default_note` succeeds, the note it named is the one default
/// note; it fails exactly when there is no such note, and then changes
/// nothing.
pub proof fn lemma_set_default_note_makes_sole_default(s: StoreView, id: i64)
    requires
        s.wf(),
    ensures
        s.set_default_note_op(id).1 is Ok <==> s.has_note(id),
        s.set_default_note_op(id).1 is Ok ==> sole_default(s.set_default_note_op(id).0.notes, id),
        s.set_default_note_op(id).1 is Err ==> s.set_default_note_op(id).0 == s,
{
    if s.has_note(id) {
        let t = s.set_default_note_op(id).0.notes;
        let i = choose|i: int| 0 <= i < s.notes.len() && #[trigger] s.notes[i].id == id;
        assert(t[i].id == id);
    }
}

/// Once `ensure_default_note` succeeds, the note it returns is the one
/// default note, whatever the store held before; it fails only when the
/// store has no note at all and no note id is left.
pub proof fn lemma_ensure_default_note_leaves_one_default(s: StoreView, now: i64)
    requires
        s.wf(),
    ensures
        s.ensure_default_note_op(now).1 matches Ok(id) ==> sole_default(s.ensure_default_note_op(now).0.notes, id),
        s.ensure_default_note_op(now).1 is Err ==> s.notes.len() == 0 && s.note_seq == i64::MAX,
{
    lemma_first_default(s.notes);
    lemma_most_recent_in_range(s.notes);
    let (t, r) = s.ensure_default_note_op(now);
    match first_default(s.notes) {
        Some(i) => {
            assert(t.notes[i].id == s.notes[i].id);
            assert forall|k: int| 0 <= k < t.notes.len() implies ((#[trigger] t.notes[k]).is_default <==> t.notes[k].id == s.notes[i].id) by {
                assert(t.notes[k].id == s.notes[k].id);
            }
        },
        None => match most_recent(s.notes) {
            Some(i) => {
                assert(t.notes[i].id == s.notes[i].id);
                assert forall|k: int| 0 <= k < t.notes.len() implies ((#[trigger] t.notes[k]).is_default <==> t.notes[k].id == s.notes[i].id) by {
                    if k != i {
                        assert(t.notes[k] == s.notes[k]);
                        if k < i {
                            assert(s.notes[k].id < s.notes[i].id);
                        } else {
                            assert(s.notes[i].id < s.notes[k].id);
                        }
                    }
                }
            },
            None => {
                if r is Ok {
                    let id = r->Ok_0;
                    assert(t.notes[s.notes.len() as int].id == id);
                    assert forall|k: int| 0 <= k < t.notes.len() implies ((#[trigger] t.notes[k]).is_default <==> t.notes[k].id == id) by {}
                }
            },
        },
    }
}

/// The default note is never deleted: `delete_note` refuses it and leaves
/// the store as it was, so the default notes are the same after any
/// `delete_note` as before.
pub proof fn lemma_delete_note_keeps_default(s: StoreView, id: i64)
    requires
        s.wf(),
    ensures
        s.has_note(id) && s.notes[s.note_idx(id)].is_default ==> s.delete_note_op(id) == (s, Err::<(), NotesError>(NotesError::DefaultNoteUndeletable)),
        default_ids(s.delete_note_op(id).0.notes) == default_ids(s.notes),
{
    let t = s.delete_note_op(id).0;
    if s.has_note(id) && !s.notes[s.note_idx(id)].is_default {
        let i = s.note_idx(id);
        assert(default_ids(t.notes) =~= default_ids(s.notes)) by {
            assert forall|x: i64| default_ids(t.notes).contains(x) == default_ids(s.notes).contains(x) by {
                if default_ids(t.notes).contains(x) {
                    let k = choose|k: int| 0 <= k < t.notes.len() && #[trigger] t.notes[k].id == x && t.notes[k].is_default;
                    let ok = if k < i { k } else { k + 1 };
                    assert(t.notes[k] == s.notes[ok]);
                }
                if default_ids(s.notes).contains(x) {
                    let k = choose|k: int| 0 <= k < s.notes.len() && #[trigger] s.notes[k].id == x && s.notes[k].is_default;
                    assert(k != i);
                    let tk = if k < i { k } else { k - 1 };
                    assert(t.notes[tk] == s.notes[k]);
                }
            }
        }
    }
}

/// Captured text lands in the default note: when `append_to_default`
/// appends a block, the block's note is then the one default note.
pub proof fn lemma_capture_lands_in_default_note(s: StoreView, content: Seq<char>, post_processed: bool, now: i64)
    requires
        s.wf(),
    ensures
        s.append_to_default_op(content, post_processed, now).1 matches Ok(Some(b)) ==> sole_default(
            s.append_to_default_op(content, post_processed, now).0.notes,
            b.note_id,
        ),
{
    if trim(content).len() != 0 {
        lemma_ensure_default_note_leaves_one_default(s, now);
        let (s1, r1) = s.ensure_default_note_op(now);
        if r1 is Ok {
            let id = r1->Ok_0;
            lemma_touched_keeps_defaults(s1.notes, id, now);
            let t = touched(s1.notes, id, now);
            if s.append_to_default_op(content, post_processed, now).1 is Ok {
                let k = choose|k: int| 0 <= k < s1.notes.len() && #[trigger] s1.notes[k].id == id;
                assert(t[k].id == id);
                assert forall|i: int| 0 <= i < t.len() implies ((#[trigger] t[i]).is_default <==> t[i].id == id) by {
                    assert(s1.notes[i].is_default <==> s1.notes[i].id == id);
                }
            }
        }
    }
}

/// Every operation other than `set_default_note`, `ensure_default_note`
/// and `append_to_default` leaves the set of default notes as it was.
pub proof fn lemma_operations_keep_defaults(
    s: StoreView,
    id: i64,
    other: i64,
    text: Seq<char>,
    tag: Seq<char>,
    source: Option<Seq<char>>,
    start: usize,
    end: usize,
    now: i64,
)
    requires
        s.wf(),
    ensures
        default_ids(s.create_note_op(text, now).0.notes) == default_ids(s.notes),
        default_ids(s.rename_note_op(id, text, now).0.notes) == default_ids(s.notes),
        default_ids(s.delete_note_op(id).0.notes) == default_ids(s.notes),
        default_ids(s.append_block_op(id, text, tag, now).0.notes) == default_ids(s.notes),
        default_ids(s.edit_block_op(id, text, source, now).0.notes) == default_ids(s.notes),
        default_ids(s.delete_block_op(id, now).0.notes) == default_ids(s.notes),
        default_ids(s.move_block_op(id, other, now).0.notes) == default_ids(s.notes),
        default_ids(s.split_and_move_block_op(id, start, end, other, now).0.notes) == default_ids(s.notes),
{
    lemma_delete_note_keeps_default(s, id);
    lemma_touched_keeps_defaults(s.notes, id, now);
    if s.has_block(id) {
        let b = s.blocks[s.block_idx(id)];
        lemma_touched_keeps_defaults(s.notes, b.note_id, now);
        lemma_touched_keeps_defaults(touched(s.notes, b.note_id, now), other, now);
    }
    let c = s.create_note_op(text, now).0.notes;
    if s.note_seq < i64::MAX {
        assert(default_ids(c) =~= default_ids(s.notes)) by {
            assert forall|x: i64| default_ids(c).contains(x) == default_ids(s.notes).contains(x) by {
                if default_ids(c).contains(x) {
                    let k = choose|k: int| 0 <= k < c.len() && #[trigger] c[k].id == x && c[k].is_default;
                    assert(k < s.notes.len());
                    assert(c[k] == s.notes[k]);
                }
                if default_ids(s.notes).contains(x) {
                    let k = choose|k: int| 0 <= k < s.notes.len() && #[trigger] s.notes[k].id == x && s.notes[k].is_default;
                    assert(c[k] == s.notes[k]);
                }
            }
        }
    }
    let rn = s.rename_note_op(id, text, now).0.notes;
    assert(default_ids(rn) =~= default_ids(s.notes)) by {
        assert forall|x: i64| default_ids(rn).contains(x) == default_ids(s.notes).contains(x) by {
            if default_ids(rn).contains(x) {
                let k = choose|k: int| 0 <= k < rn.len() && #[trigger] rn[k].id == x && rn[k].is_default;
                assert(s.notes[k].id == x && s.notes[k].is_default);
            }
            if default_ids(s.notes).contains(x) {
                let k = choose|k: int| 0 <= k < s.notes.len() && #[trigger] s.notes[k].id == x && s.notes[k].is_default;
                assert(rn[k].id == x && rn[k].is_default);
            }
        }
    }
}

/// `top_block` without a search text is a block of the note with the
/// largest position, and there is none only when the note has no block.
proof fn lemma_top_block_is_max(bs: Seq<BlockView>, note: i64)
    ensures
        top_block(bs, note, None) matches Some(i) ==> 0 <= i < bs.len() && bs[i].note_id == note
            && forall|k: int| 0 <= k < bs.len() && (#[trigger] bs[k]).note_id == note ==> bs[k].position <= bs[i].position,
        top_block(bs, note, None) is None ==> forall|k: int| 0 <= k < bs.len() ==> (#[trigger] bs[k]).note_id != note,
{
    crate::effects::lemma_top_block_is_top(bs, note, None);
    assert forall|k: int| 0 <= k < bs.len() implies block_admitted(#[trigger] bs[k], None) by {}
}

/// A block appended to a note goes after every block the note had: its
/// position is above all of theirs.
pub proof fn lemma_next_position_is_past_the_end(bs: Seq<BlockView>, note: i64)
    ensures
        next_position_of(bs, note) matches Some(p) ==> forall|k: int|
            0 <= k < bs.len() && (#[trigger] bs[k]).note_id == note ==> bs[k].position < p,
{
    lemma_top_block_is_max(bs, note);
}

/// The block `append_block` adds is the last of its note: every other block
/// of the note has a lower position.
pub proof fn lemma_appended_block_is_last(s: StoreView, note: i64, content: Seq<char>, source: Seq<char>, now: i64)
    requires
        s.wf(),
    ensures
        s.append_block_op(note, content, source, now).1 matches Ok(b) ==> forall|k: int|
            0 <= k < s.append_block_op(note, content, source, now).0.blocks.len() && (#[trigger] s.append_block_op(note, content, source, now).0.blocks[k]).note_id == note
                && s.append_block_op(note, content, source, now).0.blocks[k].id != b.id
                ==> s.append_block_op(note, content, source, now).0.blocks[k].position < b.position,
{
    lemma_next_position_is_past_the_end(s.blocks, note);
    let t = s.append_block_op(note, content, source, now).0;
    if s.append_block_op(note, content, source, now).1 is Ok {
        assert forall|k: int| 0 <= k < s.blocks.len() implies #[trigger] t.blocks[k] == s.blocks[k] by {}
    }
}

/// A block moved with `move_block` ends up last in its new note; no block
/// is created or lost, and the moved block keeps its id, content and
/// source tag.
pub proof fn lemma_moved_block_is_last(s: StoreView, id: i64, target: i64, now: i64)
    requires
        s.wf(),
    ensures
        s.move_block_op(id, target, now).1 matches Ok(b) ==> {
            let t = s.move_block_op(id, target, now).0;
            &&& t.blocks.len() == s.blocks.len()
            &&& b.id == id
            &&& b.note_id == target
            &&& b.content == s.blocks[s.block_idx(id)].content
            &&& b.source == s.blocks[s.block_idx(id)].source
            &&& forall|k: int|
                0 <= k < t.blocks.len() && (#[trigger] t.blocks[k]).note_id == target && t.blocks[k].id != id
                    ==> t.blocks[k].position < b.position
        },
{
    lemma_next_position_is_past_the_end(s.blocks, target);
    if s.move_block_op(id, target, now).1 is Ok {
        let i = s.block_idx(id);
        let t = s.move_block_op(id, target, now).0;
        assert forall|k: int| 0 <= k < t.blocks.len() && (#[trigger] t.blocks[k]).note_id == target && t.blocks[k].id != id implies t.blocks[k].position < s.move_block_op(id, target, now).1->Ok_0.position by {
            assert(k != i);
            assert(t.blocks[k] == s.blocks[k]);
        }
    }
}

/// After `update_block` or `apply_post_processed_content` succeeds, the
/// block reads back with the new content (and source tag, when one was
/// given), in the same note and place.
pub proof fn lemma_edited_block_reads_back(s: StoreView, id: i64, content: Seq<char>, source: Option<Seq<char>>, now: i64)
    requires
        s.wf(),
    ensures
        s.edit_block_op(id, content, source, now).1 is Ok ==> {
            let t = s.edit_block_op(id, content, source, now).0;
            let old = s.blocks[s.block_idx(id)];
            &&& t.has_block(id)
            &&& t.blocks[t.block_idx(id)].content == content
            &&& t.blocks[t.block_idx(id)].source == (match source {
                Some(x) => x,
                None => old.source,
            })
            &&& t.blocks[t.block_idx(id)].note_id == old.note_id
            &&& t.blocks[t.block_idx(id)].position == old.position
        },
{
    if s.has_block(id) {
        let i = s.block_idx(id);
        let t = s.edit_block_op(id, content, source, now).0;
        assert(t.blocks[i].id == id);
        let j = t.block_idx(id);
        if j != i {
            assert(t.blocks[j] == s.blocks[j]);
            if j < i {
                assert(s.blocks[j].id < s.blocks[i].id);
            } else {
                assert(s.blocks[i].id < s.blocks[j].id);
            }
        }
    }
}

/// `split_and_move_block` never leaves an empty block behind: when it
/// succeeds the new block holds exactly the selected characters (which are
/// not empty), and the split block either holds the non-empty rest or is
/// gone.
pub proof fn lemma_split_leaves_no_empty_block(s: StoreView, id: i64, start: usize, end: usize, target: i64, now: i64)
    requires
        s.wf(),
    ensures
        s.split_and_move_block_op(id, start, end, target, now).1 matches Ok(b) ==> {
            let t = s.split_and_move_block_op(id, start, end, target, now).0;
            let old = s.blocks[s.block_idx(id)];
            let (a, e) = selection_range(old.content.len(), start, end);
            &&& b.content == old.content.subrange(a, e)
            &&& b.content.len() > 0
            &&& b.note_id == target
            &&& (t.has_block(id) ==> t.blocks[t.block_idx(id)].content == remainder_of(old.content.take(a), old.content.skip(e))
                && t.blocks[t.block_idx(id)].content.len() > 0)
            &&& (!t.has_block(id) ==> remainder_of(old.content.take(a), old.content.skip(e)).len() == 0)
        },
{
    if s.split_and_move_block_op(id, start, end, target, now).1 is Ok {
        let i = s.block_idx(id);
        let old = s.blocks[i];
        let t = s.split_and_move_block_op(id, start, end, target, now).0;
        let b = s.split_and_move_block_op(id, start, end, target, now).1->Ok_0;
        let (a, e) = selection_range(old.content.len(), start, end);
        let rest = remainder_of(old.content.take(a), old.content.skip(e));
        assert(b.id > s.block_seq);
        if rest.len() == 0 {
            if t.has_block(id) {
                let j = t.block_idx(id);
                if j < s.blocks.len() - 1 {
                    let oj = if j < i { j } else { j + 1 };
                    assert(t.blocks[j] == s.blocks[oj]);
                    if oj < i {
                        assert(s.blocks[oj].id < s.blocks[i].id);
                    } else {
                        assert(s.blocks[i].id < s.blocks[oj].id);
                    }
                } else {
                    assert(t.blocks[j] == b);
                }
            }
        } else {
            assert(t.blocks[i].id == id);
            let j = t.block_idx(id);
            if j != i {
                if j < s.blocks.len() {
                    assert(t.blocks[j] == s.blocks[j]);
                    if j < i {
                        assert(s.blocks[j].id < s.blocks[i].id);
                    } else {
                        assert(s.blocks[i].id < s.blocks[j].id);
                    }
                } else {
                    assert(t.blocks[j] == b);
                }
            }
        }
    }
}

/// A new note never gets the id of a note that exists or existed: it gets
/// one past the largest id ever handed out.
pub proof fn lemma_created_note_id_is_fresh(s: StoreView, title: Seq<char>, now: i64)
    requires
        s.wf(),
    ensures
        s.create_note_op(title, now).1 matches Ok(n) ==> {
            &&& n.id > s.note_seq
            &&& forall|k: int| 0 <= k < s.notes.len() ==> (#[trigger] s.notes[k]).id < n.id
            &&& s.create_note_op(title, now).0.note_seq == n.id
        },
{
}

/// A blank search query lists every note, exactly as `list_notes` does.
pub proof fn lemma_blank_search_lists_all(s: StoreView, query: Seq<char>, rows: Seq<SummaryView>)
    requires
        trim(query).len() == 0,
        s.lists(search_text(query), rows),
    ensures
        s.lists(None, rows),
{
}

proof fn lemma_rtrim_shorter(s: Seq<char>)
    ensures
        rtrim(s).len() <= s.len(),
    decreases s.len(),
{
    if s.len() > 0 {
        lemma_rtrim_shorter(s.drop_last());
    }
}

/// A snippet is never longer than `SNIPPET_CHARS` characters plus the
/// ellipsis, and text whose collapsed form fits is shown whole.
pub proof fn lemma_snippet_is_bounded(text: Seq<char>)
    ensures
        snippet_of(text).len() <= SNIPPET_CHARS + 1,
        collapse_ws(text).len() <= SNIPPET_CHARS ==> snippet_of(text) == collapse_ws(text),
{
    let c = collapse_ws(text);
    if c.len() > SNIPPET_CHARS {
        lemma_rtrim_shorter(c.take(SNIPPET_CHARS as int));
    }
}

/// `s` is in collapsed form: every whitespace character is a space with a
/// non-whitespace character on each side.
pub open spec fn collapsed(s: Seq<char>) -> bool {
    forall|i: int|
        0 <= i < s.len() && is_ws(#[trigger] s[i]) ==> s[i] == ' ' && 0 < i < s.len() - 1 && !is_ws(s[i - 1])
            && !is_ws(s[i + 1])
}

/// `s` is a prefix of a collapsed text: as `collapsed`, but it may end in
/// a space.
spec fn collapsed_prefix(s: Seq<char>) -> bool {
    forall|i: int|
        0 <= i < s.len() && is_ws(#[trigger] s[i]) ==> s[i] == ' ' && 0 < i && !is_ws(s[i - 1]) && (i + 1
            < s.len() ==> !is_ws(s[i + 1]))
}

proof fn lemma_collapse_is_collapsed(s: Seq<char>)
    ensures
        collapsed(collapse_ws(s)),
    decreases s.len(),
{
    if s.len() > 0 {
        let p = s.drop_last();
        lemma_collapse_is_collapsed(p);
        let c = collapse_ws(p);
        let x = s.last();
        if !is_ws(x) {
            if c.len() > 0 && is_ws(p.last()) {
                let r = c.push(' ').push(x);
                assert(!is_ws(c[c.len() - 1]));
                assert forall|i: int| 0 <= i < r.len() && is_ws(#[trigger] r[i]) implies r[i] == ' ' && 0 < i < r.len() - 1
                    && !is_ws(r[i - 1]) && !is_ws(r[i + 1]) by {
                    if i < c.len() {
                        assert(r[i] == c[i]);
                        assert(r[i - 1] == c[i - 1]);
                        assert(r[i + 1] == c[i + 1]);
                    }
                }
            } else {
                let r = c.push(x);
                if c.len() > 0 {
                    assert(!is_ws(c[c.len() - 1]));
                }
                assert forall|i: int| 0 <= i < r.len() && is_ws(#[trigger] r[i]) implies r[i] == ' ' && 0 < i < r.len() - 1
                    && !is_ws(r[i - 1]) && !is_ws(r[i + 1]) by {
                    if i < c.len() {
                        assert(r[i] == c[i]);
                        assert(r[i - 1] == c[i - 1]);
                        assert(r[i + 1] == c[i + 1]);
                    }
                }
            }
        }
    }
}

proof fn lemma_collapse_of_prefix(p: Seq<char>)
    requires
        collapsed_prefix(p),
    ensures
        collapse_ws(p) == if p.len() > 0 && is_ws(p.last()) {
            p.drop_last()
        } else {
            p
        },
    decreases p.len(),
{
    if p.len() > 0 {
        let q = p.drop_last();
        assert forall|i: int| 0 <= i < q.len() && is_ws(#[trigger] q[i]) implies q[i] == ' ' && 0 < i && !is_ws(q[i - 1])
            && (i + 1 < q.len() ==> !is_ws(q[i + 1])) by {
            assert(q[i] == p[i]);
            assert(q[i - 1] == p[i - 1]);
            if i + 1 < q.len() {
                assert(q[i + 1] == p[i + 1]);
            }
        }
        lemma_collapse_of_prefix(q);
        if is_ws(p.last()) {
            assert(is_ws(p[p.len() - 1]));
            assert(!is_ws(q.last()));
        } else {
            if q.len() > 0 && is_ws(q.last()) {
                assert(is_ws(p[q.len() - 1]));
                assert(q.len() >= 2);
                assert(q.drop_last().push(' ').push(p.last()) =~= p);
            } else {
                assert(q.push(p.last()) =~= p);
            }
        }
    }
}

proof fn lemma_collapsed_fixed(s: Seq<char>)
    requires
        collapsed(s),
    ensures
        collapse_ws(s) == s,
        rtrim(s) == s,
{
    assert(collapsed_prefix(s));
    lemma_collapse_of_prefix(s);
    if s.len() > 0 {
        assert(!is_ws(s[s.len() - 1]));
    }
}

/// Taking the snippet of a snippet changes nothing.
pub proof fn lemma_snippet_is_idempotent(text: Seq<char>)
    ensures
        snippet_of(snippet_of(text)) == snippet_of(text),
{
    let c = collapse_ws(text);
    lemma_collapse_is_collapsed(text);
    if c.len() <= SNIPPET_CHARS {
        lemma_collapsed_fixed(c);
    } else {
        let t = c.take(SNIPPET_CHARS as int);
        assert forall|i: int| 0 <= i < t.len() && is_ws(#[trigger] t[i]) implies t[i] == ' ' && 0 < i && !is_ws(t[i - 1])
            && (i + 1 < t.len() ==> !is_ws(t[i + 1])) by {
            assert(t[i] == c[i]);
            assert(t[i - 1] == c[i - 1]);
            if i + 1 < t.len() {
                assert(t[i + 1] == c[i + 1]);
            }
        }
        lemma_collapse_of_prefix(t);
        let y = rtrim(t);
        // `t` has at most one trailing space
        if t.len() > 0 && is_ws(t.last()) {
            let d = t.drop_last();
            assert(!is_ws(d.last()));
            assert(rtrim(d) == d);
            assert(y == d);
        } else {
            assert(y == t);
        }
        let ell = '\u{2026}';
        assert(!is_ws(ell));
        let snip = y.push(ell);
        assert(snip == snippet_of(text));
        assert forall|i: int| 0 <= i < snip.len() && is_ws(#[trigger] snip[i]) implies snip[i] == ' ' && 0 < i < snip.len() - 1
            && !is_ws(snip[i - 1]) && !is_ws(snip[i + 1]) by {
            assert(i < y.len());
            assert(snip[i] == t[i]);
            assert(snip[i - 1] == t[i - 1]);
            assert(i + 1 < y.len() || snip[i + 1] == ell);
            if i + 1 < y.len() {
                assert(snip[i + 1] == t[i + 1]);
            }
        }
        lemma_collapsed_fixed(snip);
        if snip.len() > SNIPPET_CHARS {
            assert(y.len() == SNIPPET_CHARS);
            assert(snip.take(SNIPPET_CHARS as int) =~= y);
            assert(collapsed(y)) by {
                assert forall|i: int| 0 <= i < y.len() && is_ws(#[trigger] y[i]) implies y[i] == ' ' && 0 < i < y.len() - 1
                    && !is_ws(y[i - 1]) && !is_ws(y[i + 1]) by {
                    assert(snip[i] == y[i]);
                    assert(snip[i - 1] == y[i - 1]);
                    assert(snip[i + 1] == y[i + 1]);
                }
            }
            lemma_collapsed_fixed(y);
        }
    }
}

/// What is left of a split block keeps both sides of the cut as they are,
/// only trimmed at their outer ends: nothing but the cut is touched, and
/// one space joins the two sides when both hold text.
pub proof fn lemma_remainder_keeps_both_sides(before: Seq<char>, after: Seq<char>)
    ensures
        remainder_of(before, after) == if trim(before).len() == 0 {
            trim(after)
        } else if trim(after).len() == 0 {
            trim(before)
        } else {
            trim(before) + seq![' '] + trim(after)
        },
{
    let b = rtrim(before);
    let a = ltrim(after);
    lemma_trim_shape(before);
    lemma_trim_shape(after);
    lemma_rtrim_idempotent(before);
    lemma_ltrim_idempotent(after);
    lemma_trim_commutes(a);
    lemma_trim_commutes(after);
    if b.len() == 0 {
        assert(b + a =~= a);
        assert(trim(a) == ltrim(rtrim(a)));
    } else if a.len() == 0 {
        assert(b + a =~= b);
        assert(trim(b) == ltrim(rtrim(b)));
    } else {
        lemma_rtrim_keeps_start(a);
        lemma_ltrim_keeps_end(b);
        let j = b + seq![' '] + a;
        lemma_rtrim_append(b + seq![' '], a);
        assert(rtrim(j) == (b + seq![' ']) + rtrim(a));
        lemma_ltrim_append(b, seq![' '] + rtrim(a));
        assert((b + seq![' ']) + rtrim(a) =~= b + (seq![' '] + rtrim(a)));
        assert(ltrim(b) + (seq![' '] + rtrim(a)) =~= ltrim(b) + seq![' '] + rtrim(a));
    }
}

/// `a` and `b` joined by one space when both hold text.
pub open spec fn joined_by_space(a: Seq<char>, b: Seq<char>) -> Seq<char> {
    if a.len() == 0 {
        b
    } else if b.len() == 0 {
        a
    } else {
        a + seq![' '] + b
    }
}

/// Text without whitespace is its own collapsed form.
pub proof fn lemma_collapse_keeps_a_word(s: Seq<char>)
    requires
        forall|i: int| 0 <= i < s.len() ==> !is_ws(#[trigger] s[i]),
    ensures
        collapse_ws(s) == s,
    decreases s.len(),
{
    if s.len() > 0 {
        let p = s.drop_last();
        assert forall|i: int| 0 <= i < p.len() implies !is_ws(#[trigger] p[i]) by {
            assert(p[i] == s[i]);
        }
        lemma_collapse_keeps_a_word(p);
        if p.len() > 0 {
            assert(!is_ws(s[p.len() - 1]));
        }
        assert(p.push(s.last()) =~= s);
    }
}

/// Whitespace separates words: collapsing text around a whitespace
/// character gives the collapsed text on each side, joined by one space
/// when both hold text. With `lemma_collapse_keeps_a_word` this fixes the
/// collapsed form of every text.
pub proof fn lemma_collapse_splits_at_whitespace(x: Seq<char>, w: char, y: Seq<char>)
    requires
        is_ws(w),
    ensures
        collapse_ws(x + seq![w] + y) == joined_by_space(collapse_ws(x), collapse_ws(y)),
    decreases y.len(),
{
    let p = x + seq![w] + y;
    if y.len() == 0 {
        assert(p.drop_last() =~= x);
        assert(collapse_ws(y) == Seq::<char>::empty());
    } else {
        let y1 = y.drop_last();
        let c = y.last();
        lemma_collapse_splits_at_whitespace(x, w, y1);
        let p1 = x + seq![w] + y1;
        assert(p.drop_last() =~= p1);
        assert(p.last() == c);
        let cx = collapse_ws(x);
        let cy1 = collapse_ws(y1);
        if !is_ws(c) {
            if y1.len() == 0 {
                assert(p1.last() == w);
                assert(collapse_ws(y1) == Seq::<char>::empty());
                assert(collapse_ws(y) =~= seq![c]);
                if cx.len() > 0 {
                    assert(cx.push(' ').push(c) =~= cx + seq![' '] + seq![c]);
                } else {
                    assert(cx.push(c) =~= seq![c]);
                }
            } else {
                assert(p1.last() == y1.last());
                if !is_ws(y1.last()) {
                    assert(y1.drop_last().push(y1.last()) =~= y1);
                    assert(cy1.len() > 0);
                }
                if cy1.len() > 0 && is_ws(y1.last()) {
                    assert(collapse_ws(y) == cy1.push(' ').push(c));
                    if cx.len() > 0 {
                        assert((cx + seq![' '] + cy1).push(' ').push(c) =~= cx + seq![' '] + cy1.push(' ').push(c));
                    }
                } else if cy1.len() > 0 {
                    assert(collapse_ws(y) == cy1.push(c));
                    if cx.len() > 0 {
                        assert((cx + seq![' '] + cy1).push(c) =~= cx + seq![' '] + cy1.push(c));
                    }
                } else {
                    assert(collapse_ws(y) =~= seq![c]);
                    if cx.len() > 0 {
                        assert(cx.push(' ').push(c) =~= cx + seq![' '] + seq![c]);
                    } else {
                        assert(cx.push(c) =~= seq![c]);
                    }
                }
            }
        }
    }
}

/// The snippet of a text whose collapsed form is too long is the start of
/// that form, cut at `SNIPPET_CHARS` characters, less a space at the cut,
/// and marked with an ellipsis.
pub proof fn lemma_long_snippet_is_a_marked_prefix(text: Seq<char>)
    requires
        collapse_ws(text).len() > SNIPPET_CHARS,
    ensures
        snippet_of(text).len() > 0,
        snippet_of(text).last() == '\u{2026}',
        ({
            let head = snippet_of(text).drop_last();
            let c = collapse_ws(text);
            &&& head == c.take(head.len() as int)
            &&& SNIPPET_CHARS - 1 <= head.len() <= SNIPPET_CHARS
            &&& !is_ws(head.last())
            &&& head.len() < SNIPPET_CHARS ==> is_ws(c[head.len() as int])
        }),
{
    let c = collapse_ws(text);
    lemma_collapse_is_collapsed(text);
    let x = c.take(SNIPPET_CHARS as int);
    let k = lemma_rtrim_is_prefix(x);
    let n = SNIPPET_CHARS as int;
    assert(snippet_of(text) == x.take(k).push('\u{2026}'));
    assert(snippet_of(text).drop_last() =~= x.take(k));
    assert(x.take(k) =~= c.take(k));
    if is_ws(c[n - 1]) {
        assert(is_ws(x[n - 1]));
        assert(!is_ws(c[n - 2]));
        assert(x[n - 2] == c[n - 2]);
        if k < n - 1 {
            assert(is_ws(x[n - 2]));
        }
        assert(rtrim(x) == rtrim(x.drop_last()));
        lemma_rtrim_shorter(x.drop_last());
        assert(x.take(k).len() == k);
        assert(k == n - 1);
    } else {
        assert(x[n - 1] == c[n - 1]);
        assert(k == n);
    }
}

} // verus!
