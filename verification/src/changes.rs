//! What each operation does to the store, stated over its view: the new
//! state and the outcome, for every input.

use vstd::prelude::*;

use crate::block_source::{DICTATION, POST_PROCESSED};
use crate::model::{BlockView, NoteView, NotesError};
use crate::store::{next_position_of, stored_title, touched, StoreView, STARTER_TITLE};
use crate::text::{remainder_of, trim};

verus! {

/// Index of the first default note in `ns`.
pub open spec fn first_default(ns: Seq<NoteView>) -> Option<int>
    decreases ns.len(),
{
    if ns.len() == 0 {
        None
    } else {
        let prev = first_default(ns.drop_last());
        if prev is Some {
            prev
        } else if ns.last().is_default {
            Some(ns.len() - 1)
        } else {
            None
        }
    }
}

/// Index of the most recently updated note in `ns` (the first of those
/// updated last).
pub open spec fn most_recent(ns: Seq<NoteView>) -> Option<int>
    decreases ns.len(),
{
    if ns.len() == 0 {
        None
    } else {
        let prev = most_recent(ns.drop_last());
        if prev is None || ns.last().updated_at > ns[prev->0].updated_at {
            Some(ns.len() - 1)
        } else {
            prev
        }
    }
}

/// `first_default` is the first index of a default note.
pub proof fn lemma_first_default(ns: Seq<NoteView>)
    ensures
        match first_default(ns) {
            Some(i) => 0 <= i < ns.len() && ns[i].is_default && forall|j: int| 0 <= j < i ==> !(#[trigger] ns[j]).is_default,
            None => forall|j: int| 0 <= j < ns.len() ==> !(#[trigger] ns[j]).is_default,
        },
    decreases ns.len(),
{
    if ns.len() > 0 {
        lemma_first_default(ns.drop_last());
        assert forall|j: int| 0 <= j < ns.len() - 1 implies #[trigger] ns[j] == ns.drop_last()[j] by {}
    }
}

/// One step of `most_recent` over a prefix.
pub proof fn lemma_most_recent_step(ns: Seq<NoteView>, k: int)
    requires
        0 <= k < ns.len(),
    ensures
        most_recent(ns.take(k + 1)) == ({
            let prev = most_recent(ns.take(k));
            if prev is None || ns[k].updated_at > ns[prev->0].updated_at {
                Some(k)
            } else {
                prev
            }
        }),
        most_recent(ns.take(k)) matches Some(i) ==> 0 <= i < k,
{
    assert(ns.take(k + 1).drop_last() =~= ns.take(k));
    lemma_most_recent_in_range(ns.take(k));
    let prev = most_recent(ns.take(k));
    if prev is Some {
        assert(ns.take(k + 1)[prev->0] == ns[prev->0]);
        assert(ns.take(k)[prev->0] == ns[prev->0]);
    }
}

/// `most_recent` is an index of `ns`, and there is one when `ns` is not empty.
pub proof fn lemma_most_recent_in_range(ns: Seq<NoteView>)
    ensures
        most_recent(ns) matches Some(i) ==> 0 <= i < ns.len(),
        ns.len() > 0 ==> most_recent(ns) is Some,
    decreases ns.len(),
{
    if ns.len() > 0 {
        lemma_most_recent_in_range(ns.drop_last());
    }
}

/// `ns` with note `id` the only default note.
pub open spec fn sole_default_notes(ns: Seq<NoteView>, id: i64) -> Seq<NoteView> {
    ns.map_values(|n: NoteView| NoteView { is_default: n.id == id, ..n })
}

/// Source tag of a block captured from dictation.
pub open spec fn capture_source(post_processed: bool) -> Seq<char> {
    if post_processed {
        POST_PROCESSED@
    } else {
        DICTATION@
    }
}

/// The character range `[start, end)` of a text of `len` characters that a
/// selection covers: `start` cut to the text, `end` cut to `[start, len]`.
pub open spec fn selection_range(len: nat, start: usize, end: usize) -> (int, int) {
    let s: int = if start < len {
        start as int
    } else {
        len as int
    };
    let e: int = if end < s {
        s
    } else if end > len {
        len as int
    } else {
        end as int
    };
    (s, e)
}

impl StoreView {
    /// Creating a note: the next note id, the stored title, not default,
    /// created and updated `now`.
    pub open spec fn create_note_op(self, title: Seq<char>, now: i64) -> (StoreView, Result<NoteView, NotesError>) {
        if self.note_seq == i64::MAX {
            (self, Err(NotesError::NoteIdsExhausted))
        } else {
            let n = NoteView {
                id: (self.note_seq + 1) as i64,
                title: stored_title(title),
                is_default: false,
                created_at: now,
                updated_at: now,
            };
            (StoreView { notes: self.notes.push(n), note_seq: n.id, ..self }, Ok(n))
        }
    }

    /// Renaming note `id`: its stored title becomes `title`'s, updated `now`.
    pub open spec fn rename_note_op(self, id: i64, title: Seq<char>, now: i64) -> (StoreView, Result<(), NotesError>) {
        if !self.has_note(id) {
            (self, Err(NotesError::NoteNotFound(id)))
        } else {
            let ns = self.notes.map_values(
                |n: NoteView|
                    if n.id == id {
                        NoteView { title: stored_title(title), updated_at: now, ..n }
                    } else {
                        n
                    },
            );
            (StoreView { notes: ns, ..self }, Ok(()))
        }
    }

    /// Deleting note `id` and its blocks; the default note is refused.
    pub open spec fn delete_note_op(self, id: i64) -> (StoreView, Result<(), NotesError>) {
        if !self.has_note(id) {
            (self, Err(NotesError::NoteNotFound(id)))
        } else if self.notes[self.note_idx(id)].is_default {
            (self, Err(NotesError::DefaultNoteUndeletable))
        } else {
            (
                StoreView {
                    notes: self.notes.remove(self.note_idx(id)),
                    blocks: self.blocks.filter(|b: BlockView| b.note_id != id),
                    ..self
                },
                Ok(()),
            )
        }
    }

    /// Making note `id` the one default note.
    pub open spec fn set_default_note_op(self, id: i64) -> (StoreView, Result<(), NotesError>) {
        if !self.has_note(id) {
            (self, Err(NotesError::NoteNotFound(id)))
        } else {
            (StoreView { notes: sole_default_notes(self.notes, id), ..self }, Ok(()))
        }
    }

    /// Appending a block to note `note_id` (which need not exist): the next
    /// block id, one past the note's last position, created `now`; the note
    /// is updated `now`.
    pub open spec fn append_block_op(
        self,
        note_id: i64,
        content: Seq<char>,
        source: Seq<char>,
        now: i64,
    ) -> (StoreView, Result<BlockView, NotesError>) {
        match next_position_of(self.blocks, note_id) {
            None => (self, Err(NotesError::PositionOverflow)),
            Some(p) => if self.block_seq == i64::MAX {
                (self, Err(NotesError::BlockIdsExhausted))
            } else {
                let b = BlockView {
                    id: (self.block_seq + 1) as i64,
                    note_id,
                    position: p,
                    content,
                    source,
                    created_at: now,
                };
                (
                    StoreView {
                        notes: touched(self.notes, note_id, now),
                        blocks: self.blocks.push(b),
                        block_seq: b.id,
                        ..self
                    },
                    Ok(b),
                )
            },
        }
    }

    /// Making sure exactly one note is the default: the first default note
    /// if there is one (any other default note stops being one); else the most recently updated note becomes the default;
    /// else a starter note is created as the default.
    pub open spec fn ensure_default_note_op(self, now: i64) -> (StoreView, Result<i64, NotesError>) {
        match first_default(self.notes) {
            Some(i) => (
                StoreView { notes: sole_default_notes(self.notes, self.notes[i].id), ..self },
                Ok(self.notes[i].id),
            ),
            None => match most_recent(self.notes) {
                Some(i) => (
                    StoreView {
                        notes: self.notes.update(i, NoteView { is_default: true, ..self.notes[i] }),
                        ..self
                    },
                    Ok(self.notes[i].id),
                ),
                None => if self.note_seq == i64::MAX {
                    (self, Err(NotesError::NoteIdsExhausted))
                } else {
                    let n = NoteView {
                        id: (self.note_seq + 1) as i64,
                        title: STARTER_TITLE@,
                        is_default: true,
                        created_at: now,
                        updated_at: now,
                    };
                    (StoreView { notes: self.notes.push(n), note_seq: n.id, ..self }, Ok(n.id))
                },
            },
        }
    }

    /// Appending captured text to the default note: nothing for blank
    /// text; else the default note is made sure of, then the text appended
    /// to it, tagged by whether it was post-processed.
    pub open spec fn append_to_default_op(self, content: Seq<char>, post_processed: bool, now: i64) -> (StoreView, Result<Option<BlockView>, NotesError>) {
        if trim(content).len() == 0 {
            (self, Ok(None))
        } else {
            let (s1, r1) = self.ensure_default_note_op(now);
            match r1 {
                Err(e) => (s1, Err(e)),
                Ok(id) => {
                    let (s2, r2) = s1.append_block_op(id, content, capture_source(post_processed), now);
                    match r2 {
                        Ok(b) => (s2, Ok(Some(b))),
                        Err(e) => (s2, Err(e)),
                    }
                },
            }
        }
    }

    /// Replacing the content (and, when given, the source tag) of block
    /// `id`; its note is updated `now`.
    pub open spec fn edit_block_op(self, id: i64, content: Seq<char>, source: Option<Seq<char>>, now: i64) -> (StoreView, Result<BlockView, NotesError>) {
        if !self.has_block(id) {
            (self, Err(NotesError::BlockNotFound(id)))
        } else {
            let old = self.blocks[self.block_idx(id)];
            let b = BlockView {
                content,
                source: match source {
                    Some(s) => s,
                    None => old.source,
                },
                ..old
            };
            (
                StoreView {
                    notes: touched(self.notes, old.note_id, now),
                    blocks: self.blocks.update(self.block_idx(id), b),
                    ..self
                },
                Ok(b),
            )
        }
    }

    /// Deleting block `id`; its note is updated `now`.
    pub open spec fn delete_block_op(self, id: i64, now: i64) -> (StoreView, Result<(), NotesError>) {
        if !self.has_block(id) {
            (self, Err(NotesError::BlockNotFound(id)))
        } else {
            let old = self.blocks[self.block_idx(id)];
            (
                StoreView {
                    notes: touched(self.notes, old.note_id, now),
                    blocks: self.blocks.remove(self.block_idx(id)),
                    ..self
                },
                Ok(()),
            )
        }
    }

    /// Moving block `id` to the end of note `target`; both notes are
    /// updated `now`.
    pub open spec fn move_block_op(self, id: i64, target: i64, now: i64) -> (StoreView, Result<BlockView, NotesError>) {
        if !self.has_block(id) {
            (self, Err(NotesError::BlockNotFound(id)))
        } else if !self.has_note(target) {
            (self, Err(NotesError::TargetNoteNotFound(target)))
        } else {
            match next_position_of(self.blocks, target) {
                None => (self, Err(NotesError::PositionOverflow)),
                Some(p) => {
                    let old = self.blocks[self.block_idx(id)];
                    let b = BlockView { note_id: target, position: p, ..old };
                    (
                        StoreView {
                            notes: touched(touched(self.notes, old.note_id, now), target, now),
                            blocks: self.blocks.update(self.block_idx(id), b),
                            ..self
                        },
                        Ok(b),
                    )
                },
            }
        }
    }

    /// Moving the characters `[start, end)` (see `selection_range`) of
    /// block `id` into a new block at the end of note `target`: the block
    /// keeps the rest (see `remainder_of`) or, when nothing is left, is
    /// deleted; the new block keeps the old one's source tag; both notes are
    /// updated `now`. Either all of it happens or nothing does.
    pub open spec fn split_and_move_block_op(
        self,
        id: i64,
        start: usize,
        end: usize,
        target: i64,
        now: i64,
    ) -> (StoreView, Result<BlockView, NotesError>) {
        if !self.has_block(id) {
            (self, Err(NotesError::BlockNotFound(id)))
        } else if !self.has_note(target) {
            (self, Err(NotesError::TargetNoteNotFound(target)))
        } else {
            let i = self.block_idx(id);
            let old = self.blocks[i];
            let (s, e) = selection_range(old.content.len(), start, end);
            if s == e {
                (self, Err(NotesError::EmptySelection))
            } else {
                let rest = remainder_of(old.content.take(s), old.content.skip(e));
                let bs1 = if rest.len() == 0 {
                    self.blocks.remove(i)
                } else {
                    self.blocks.update(i, BlockView { content: rest, ..old })
                };
                match next_position_of(bs1, target) {
                    None => (self, Err(NotesError::PositionOverflow)),
                    Some(p) => if self.block_seq == i64::MAX {
                        (self, Err(NotesError::BlockIdsExhausted))
                    } else {
                        let b = BlockView {
                            id: (self.block_seq + 1) as i64,
                            note_id: target,
                            position: p,
                            content: old.content.subrange(s, e),
                            source: old.source,
                            created_at: now,
                        };
                        (
                            StoreView {
                                notes: touched(touched(self.notes, old.note_id, now), target, now),
                                blocks: bs1.push(b),
                                block_seq: b.id,
                                ..self
                            },
                            Ok(b),
                        )
                    },
                }
            }
        }
    }
}

} // verus!
