//! The records of the notepad: notes, their blocks, the rows of the note
//! list, change notifications and errors, each with its mathematical view.

use vstd::prelude::*;

verus! {

/// A note: a titled, ordered list of blocks.
#[derive(Clone, Debug, PartialEq, Eq)]
pub struct Note {
    pub id: i64,
    pub title: String,
    pub is_default: bool,
    pub created_at: i64,
    pub updated_at: i64,
}

/// One block of a note's text.
#[derive(Clone, Debug, PartialEq, Eq)]
pub struct NoteBlock {
    pub id: i64,
    pub note_id: i64,
    pub position: i64,
    pub content: String,
    pub source: String,
    pub created_at: i64,
}

/// One row of the note list.
#[derive(Clone, Debug, PartialEq, Eq)]
pub struct NoteSummary {
    pub id: i64,
    pub title: String,
    pub is_default: bool,
    pub updated_at: i64,
    pub block_count: i64,
    pub snippet: String,
}

/// A note with all of its blocks, in position order.
#[derive(Clone, Debug, PartialEq, Eq)]
pub struct NoteWithBlocks {
    pub note: Note,
    pub blocks: Vec<NoteBlock>,
}

/// Coarse-grained change notification for the notepad window(s): callers
/// refetch on receipt rather than patching state from the payload.
#[derive(Clone, Copy, Debug, PartialEq, Eq, Structural)]
pub enum NoteUpdatePayload {
    /// A note was created, renamed, deleted, or the default note changed.
    NotesChanged,
    /// A block within `note_id` was added, edited, moved, or deleted.
    NoteChanged { note_id: i64 },
}

/// Why an operation on the notes was refused.
#[derive(Clone, Copy, Debug, PartialEq, Eq, Structural)]
pub enum NotesError {
    /// No note has this id.
    NoteNotFound(i64),
    /// No block has this id.
    BlockNotFound(i64),
    /// The note a block was to be moved to does not exist.
    TargetNoteNotFound(i64),
    /// The default note can't be deleted.
    DefaultNoteUndeletable,
    /// The selected range of a block is empty.
    EmptySelection,
    /// Every note id has been handed out.
    NoteIdsExhausted,
    /// Every block id has been handed out.
    BlockIdsExhausted,
    /// The next position in a note does not fit in an `i64`.
    PositionOverflow,
}

/// Mathematical view of a `Note`.
#[verifier::ext_equal]
pub struct NoteView {
    pub id: i64,
    pub title: Seq<char>,
    pub is_default: bool,
    pub created_at: i64,
    pub updated_at: i64,
}

/// Mathematical view of a `NoteBlock`.
#[verifier::ext_equal]
pub struct BlockView {
    pub id: i64,
    pub note_id: i64,
    pub position: i64,
    pub content: Seq<char>,
    pub source: Seq<char>,
    pub created_at: i64,
}

/// Mathematical view of a `NoteSummary`.
#[verifier::ext_equal]
pub struct SummaryView {
    pub id: i64,
    pub title: Seq<char>,
    pub is_default: bool,
    pub updated_at: i64,
    pub block_count: i64,
    pub snippet: Seq<char>,
}

impl View for Note {
    type V = NoteView;

    open spec fn view(&self) -> NoteView {
        NoteView {
            id: self.id,
            title: self.title@,
            is_default: self.is_default,
            created_at: self.created_at,
            updated_at: self.updated_at,
        }
    }
}

impl View for NoteBlock {
    type V = BlockView;

    open spec fn view(&self) -> BlockView {
        BlockView {
            id: self.id,
            note_id: self.note_id,
            position: self.position,
            content: self.content@,
            source: self.source@,
            created_at: self.created_at,
        }
    }
}

impl View for NoteSummary {
    type V = SummaryView;

    open spec fn view(&self) -> SummaryView {
        SummaryView {
            id: self.id,
            title: self.title@,
            is_default: self.is_default,
            updated_at: self.updated_at,
            block_count: self.block_count,
            snippet: self.snippet@,
        }
    }
}

/// View of an outcome whose success value has a view.
pub open spec fn result_view<T: View>(r: Result<T, NotesError>) -> Result<T::V, NotesError> {
    match r {
        Ok(v) => Ok(v@),
        Err(e) => Err(e),
    }
}

/// View of an outcome that may hold a block.
pub open spec fn maybe_block_view(r: Result<Option<NoteBlock>, NotesError>) -> Result<Option<BlockView>, NotesError> {
    match r {
        Ok(Some(b)) => Ok(Some(b@)),
        Ok(None) => Ok(None),
        Err(e) => Err(e),
    }
}

/// View of the outcome of an operation that hands back a value and the
/// change it made.
pub open spec fn changed_view<T: View>(r: Result<(T, NotesChange), NotesError>) -> Result<T::V, NotesError> {
    match r {
        Ok(x) => Ok(x.0@),
        Err(e) => Err(e),
    }
}

/// View of the outcome of an operation that hands back only the change it
/// made.
pub open spec fn unit_view(r: Result<NotesChange, NotesError>) -> Result<(), NotesError> {
    match r {
        Ok(_) => Ok(()),
        Err(e) => Err(e),
    }
}

/// View of the outcome of an operation that may append a block.
pub open spec fn maybe_changed_view(r: Result<Option<(NoteBlock, NotesChange)>, NotesError>) -> Result<Option<BlockView>, NotesError> {
    match r {
        Ok(Some(x)) => Ok(Some(x.0@)),
        Ok(None) => Ok(None),
        Err(e) => Err(e),
    }
}

/// Views of a sequence of blocks.
pub open spec fn block_views(bs: Seq<NoteBlock>) -> Seq<BlockView> {
    bs.map_values(|b: NoteBlock| b@)
}

/// Views of a sequence of notes.
pub open spec fn note_views(ns: Seq<Note>) -> Seq<NoteView> {
    ns.map_values(|n: Note| n@)
}

/// Views of a sequence of summaries.
pub open spec fn summary_views(ss: Seq<NoteSummary>) -> Seq<SummaryView> {
    ss.map_values(|s: NoteSummary| s@)
}

impl Note {
    /// A copy of this note.
    pub fn duplicate(&self) -> (r: Note)
        ensures
            r@ == self@,
    {
        Note {
            id: self.id,
            title: self.title.clone(),
            is_default: self.is_default,
            created_at: self.created_at,
            updated_at: self.updated_at,
        }
    }
}

impl NoteBlock {
    /// A copy of this block.
    pub fn duplicate(&self) -> (r: NoteBlock)
        ensures
            r@ == self@,
    {
        NoteBlock {
            id: self.id,
            note_id: self.note_id,
            position: self.position,
            content: self.content.clone(),
            source: self.source.clone(),
            created_at: self.created_at,
        }
    }
}

impl NoteSummary {
    /// A copy of this row.
    pub fn duplicate(&self) -> (r: NoteSummary)
        ensures
            r@ == self@,
    {
        NoteSummary {
            id: self.id,
            title: self.title.clone(),
            is_default: self.is_default,
            updated_at: self.updated_at,
            block_count: self.block_count,
            snippet: self.snippet.clone(),
        }
    }
}

/// A successful change to the notes, as far as the notepad windows need to
/// hear of it.
#[derive(Clone, Copy, Debug, PartialEq, Eq, Structural)]
pub enum NotesChange {
    /// A note was created.
    NoteCreated,
    /// A note was renamed.
    NoteRenamed,
    /// A note was deleted.
    NoteDeleted,
    /// Another note became the default.
    DefaultNoteSet,
    /// A block was appended to note `note_id` (by hand or by capture).
    BlockAppended { note_id: i64 },
    /// A block of note `note_id` was edited or post-processed.
    BlockEdited { note_id: i64 },
    /// A block of note `note_id` was deleted.
    BlockDeleted { note_id: i64 },
    /// A block, or part of one, went from one note to another.
    BlockMoved { source_note_id: i64, target_note_id: i64 },
}

/// The notifications owed for `change`: the note list changed for a change
/// to a note itself; the note changed for a change to one of its blocks;
/// both notes (once each) when a block moved.
pub open spec fn notifications_of(change: NotesChange) -> Seq<NoteUpdatePayload> {
    match change {
        NotesChange::NoteCreated | NotesChange::NoteRenamed | NotesChange::NoteDeleted
        | NotesChange::DefaultNoteSet => seq![NoteUpdatePayload::NotesChanged],
        NotesChange::BlockAppended { note_id } | NotesChange::BlockEdited { note_id }
        | NotesChange::BlockDeleted { note_id } => seq![NoteUpdatePayload::NoteChanged { note_id }],
        NotesChange::BlockMoved { source_note_id, target_note_id } => if source_note_id
            == target_note_id {
            seq![NoteUpdatePayload::NoteChanged { note_id: source_note_id }]
        } else {
            seq![
                NoteUpdatePayload::NoteChanged { note_id: source_note_id },
                NoteUpdatePayload::NoteChanged { note_id: target_note_id },
            ]
        },
    }
}

/// The notifications to send after `change`.
pub fn notifications(change: NotesChange) -> (r: Vec<NoteUpdatePayload>)
    ensures
        r@ == notifications_of(change),
{
    match change {
        NotesChange::NoteCreated | NotesChange::NoteRenamed | NotesChange::NoteDeleted
        | NotesChange::DefaultNoteSet => {
            let mut r: Vec<NoteUpdatePayload> = Vec::new();
            r.push(NoteUpdatePayload::NotesChanged);
            r
        },
        NotesChange::BlockAppended { note_id } | NotesChange::BlockEdited { note_id }
        | NotesChange::BlockDeleted { note_id } => {
            let mut r: Vec<NoteUpdatePayload> = Vec::new();
            r.push(NoteUpdatePayload::NoteChanged { note_id });
            r
        },
        NotesChange::BlockMoved { source_note_id, target_note_id } => block_moved_notifications(
            source_note_id,
            target_note_id,
        ),
    }
}

/// The notifications owed after a block moved from note `source_note_id`
/// to note `target_note_id`: one for each note touched, once each.
pub fn block_moved_notifications(source_note_id: i64, target_note_id: i64) -> (r: Vec<
    NoteUpdatePayload,
>)
    ensures
        source_note_id == target_note_id ==> r@ == seq![
            NoteUpdatePayload::NoteChanged { note_id: source_note_id },
        ],
        source_note_id != target_note_id ==> r@ == seq![
            NoteUpdatePayload::NoteChanged { note_id: source_note_id },
            NoteUpdatePayload::NoteChanged { note_id: target_note_id },
        ],
{
    let mut r: Vec<NoteUpdatePayload> = Vec::new();
    r.push(NoteUpdatePayload::NoteChanged { note_id: source_note_id });
    if target_note_id != source_note_id {
        r.push(NoteUpdatePayload::NoteChanged { note_id: target_note_id });
    }
    r
}

} // verus!
