use handy_notes::block_source;
use handy_notes::like::{escape_like, like_match};
use handy_notes::model::{block_moved_notifications, notifications, Note, NoteBlock, NoteUpdatePayload, NotesChange, NotesError};
use handy_notes::requests::{llm_reply, selection_offsets};
use handy_notes::store::NotesManager;
use handy_notes::text::{rejoin_remainder, truncate_snippet, SNIPPET_CHARS};

fn note(id: i64, title: &str, is_default: bool, updated_at: i64) -> Note {
    Note { id, title: title.to_string(), is_default, created_at: 0, updated_at }
}

fn block(id: i64, note_id: i64, position: i64, content: &str) -> NoteBlock {
    NoteBlock {
        id,
        note_id,
        position,
        content: content.to_string(),
        source: "dictation".to_string(),
        created_at: 0,
    }
}

fn chars(s: &str) -> Vec<char> {
    s.chars().collect()
}

#[test]
fn next_position_starts_at_zero() {
    let store = NotesManager::from_rows(vec![note(1, "A", true, 0)], vec![], 1, 0).unwrap();
    let note_id = 1;
    assert_eq!(store.next_position(note_id).unwrap(), 0);
    let store =
        NotesManager::from_rows(vec![note(1, "A", true, 0)], vec![block(1, note_id, 0, "first")], 1, 1)
            .unwrap();
    assert_eq!(store.next_position(note_id).unwrap(), 1);
}

#[test]
fn truncate_snippet_collapses_whitespace_and_caps_length() {
    assert_eq!(truncate_snippet("  hello   world  "), "hello world");
    let long = "a".repeat(200);
    let snippet = truncate_snippet(&long);
    assert_eq!(snippet.chars().count(), SNIPPET_CHARS + 1); // + ellipsis
    assert!(snippet.ends_with('\u{2026}'));
}

#[test]
fn split_logic_rejoins_before_and_after_with_a_single_space() {
    let content = "Follow-up items: finalize the thing, confirm tokens.";
    let chars: Vec<char> = content.chars().collect();
    let start = content.find("finalize the thing").unwrap();
    let end = start + "finalize the thing".len();

    let before: String = chars[..start].iter().collect();
    let after: String = chars[end..].iter().collect();
    let remainder = rejoin_remainder(&before, &after);

    assert_eq!(remainder, "Follow-up items: , confirm tokens.".replace("  ", " "));
}

#[test]
fn snippet_cut_trims_trailing_space_before_ellipsis() {
    // 139 letters, a space, then more: the cut lands right after the space
    let text = format!("{} {}", "b".repeat(139), "c".repeat(20));
    let snippet = truncate_snippet(&text);
    assert_eq!(snippet, format!("{}\u{2026}", "b".repeat(139)));
    assert_eq!(truncate_snippet(""), "");
    assert_eq!(truncate_snippet("\t\n a\u{3000}b "), "a b");
}

#[test]
fn remainder_edge_cases() {
    assert_eq!(rejoin_remainder("", "  tail "), "tail");
    assert_eq!(rejoin_remainder(" head  ", ""), "head");
    assert_eq!(rejoin_remainder("  ", " "), "");
    assert_eq!(rejoin_remainder("a", "b"), "a b");
}

#[test]
fn escape_like_escapes_wildcards_and_escape_char() {
    assert_eq!(escape_like("50%_off\\"), "50\\%\\_off\\\\");
    assert_eq!(escape_like("plain"), "plain");
}

#[test]
fn like_matching_follows_wildcards_escapes_and_ascii_case() {
    assert!(like_match(&chars("%ab%"), &chars("xxABxx")));
    assert!(like_match(&chars("a_c"), &chars("abc")));
    assert!(!like_match(&chars("a_c"), &chars("ac")));
    assert!(like_match(&chars("%\\%%"), &chars("100%")));
    assert!(!like_match(&chars("%\\%%"), &chars("100")));
    assert!(!like_match(&chars("É"), &chars("é")));
    assert!(like_match(&chars(""), &chars("")));
    assert!(!like_match(&chars("a\\"), &chars("a")));
}

#[test]
fn list_orders_default_first_then_latest_update() {
    let store = NotesManager::from_rows(
        vec![note(1, "old", false, 10), note(2, "default", true, 5), note(3, "new", false, 20), note(4, "tie", false, 20)],
        vec![block(1, 3, 0, "first   block"), block(2, 3, 1, "second\nblock"), block(3, 1, 0, "x")],
        4,
        3,
    )
    .unwrap();
    let rows = store.list_notes();
    let ids: Vec<i64> = rows.iter().map(|r| r.id).collect();
    assert_eq!(ids, vec![2, 3, 4, 1]);
    assert_eq!(rows[1].block_count, 2);
    assert_eq!(rows[1].snippet, "second block");
    assert_eq!(rows[2].block_count, 0);
    assert_eq!(rows[2].snippet, "");
}

#[test]
fn search_matches_title_or_content_literally() {
    let store = NotesManager::from_rows(
        vec![note(1, "Groceries", false, 1), note(2, "Work", false, 2), note(3, "100% done", false, 3)],
        vec![
            block(1, 2, 0, "call the GROCER"),
            block(2, 2, 1, "unrelated last block"),
            block(3, 1, 0, "eggs"),
        ],
        3,
        3,
    )
    .unwrap();
    let rows = store.search("  grocer ");
    let ids: Vec<i64> = rows.iter().map(|r| r.id).collect();
    assert_eq!(ids, vec![2, 1]);
    // matching block shown rather than the last block
    assert_eq!(rows[0].snippet, "call the GROCER");
    // title-only match falls back to the last block
    assert_eq!(rows[1].snippet, "eggs");
    // % is matched literally
    let rows = store.search("0%");
    assert_eq!(rows.iter().map(|r| r.id).collect::<Vec<_>>(), vec![3]);
    let rows = store.search("_");
    assert!(rows.is_empty());
    // blank query lists everything
    assert_eq!(store.search("   ").len(), store.list_notes().len());
    assert_eq!(store.search("").len(), 3);
}

#[test]
fn create_and_rename_use_untitled_for_blank_titles() {
    let mut store = NotesManager::new();
    let n = store.create_note("   ".to_string(), 1_700_000_000).unwrap().0;
    assert_eq!(n.id, 1);
    assert_eq!(n.title, "Untitled note");
    assert!(!n.is_default);
    assert_eq!(n.created_at, n.updated_at);
    assert_eq!(n.created_at, 1_700_000_000);
    let m = store.create_note("Ideas".to_string(), 1).unwrap().0;
    assert_eq!(m.id, 2);
    store.rename_note(2, "\t".to_string(), 2).unwrap();
    assert_eq!(store.get_note(2).unwrap().note.title, "Untitled note");
    store.rename_note(1, "Plans".to_string(), 3).unwrap();
    assert_eq!(store.get_note(1).unwrap().note.title, "Plans");
    assert_eq!(store.rename_note(9, "x".to_string(), 4), Err(NotesError::NoteNotFound(9)));
}

#[test]
fn create_note_uses_given_time_and_fresh_ids() {
    let mut store =
        NotesManager::from_rows(vec![note(3, "a", false, 0)], vec![], 7, 0).unwrap();
    let n = store.create_note("b".to_string(), 42).unwrap().0;
    assert_eq!(n.id, 8);
    assert_eq!((n.created_at, n.updated_at), (42, 42));
    assert_eq!(store.note_seq(), 8);
    let mut full = NotesManager::from_rows(vec![], vec![], i64::MAX, 0).unwrap();
    assert_eq!(full.create_note("x".to_string(), 1), Err(NotesError::NoteIdsExhausted));
}

#[test]
fn default_note_cannot_be_deleted_and_delete_removes_blocks() {
    let mut store = NotesManager::from_rows(
        vec![note(1, "Scratchpad", true, 0), note(2, "Other", false, 0)],
        vec![block(1, 2, 0, "a"), block(2, 1, 0, "b"), block(3, 2, 1, "c")],
        2,
        3,
    )
    .unwrap();
    assert_eq!(store.delete_note(1), Err(NotesError::DefaultNoteUndeletable));
    assert_eq!(store.notes().len(), 2);
    assert_eq!(store.delete_note(5), Err(NotesError::NoteNotFound(5)));
    store.delete_note(2).unwrap();
    assert_eq!(store.notes().len(), 1);
    assert_eq!(store.blocks().len(), 1);
    assert_eq!(store.blocks()[0].id, 2);
}

#[test]
fn set_default_note_leaves_exactly_one_default() {
    let mut store = NotesManager::from_rows(
        vec![note(1, "a", true, 0), note(2, "b", false, 0), note(3, "c", false, 0)],
        vec![],
        3,
        0,
    )
    .unwrap();
    store.set_default_note(3).unwrap();
    let defaults: Vec<i64> = store.notes().iter().filter(|n| n.is_default).map(|n| n.id).collect();
    assert_eq!(defaults, vec![3]);
    assert_eq!(store.set_default_note(4), Err(NotesError::NoteNotFound(4)));
    // now the old default can be deleted
    store.delete_note(1).unwrap();
}

#[test]
fn ensure_default_note_promotes_latest_or_creates_scratchpad() {
    let mut empty = NotesManager::new();
    let id = empty.ensure_default_note(100).unwrap();
    let created = empty.get_note(id).unwrap().note;
    assert_eq!(created.title, "Scratchpad");
    assert!(created.is_default);
    assert_eq!(created.created_at, 100);
    // a second call finds it
    assert_eq!(empty.ensure_default_note(200).unwrap(), id);
    assert_eq!(empty.notes().len(), 1);

    let mut store = NotesManager::from_rows(
        vec![note(1, "a", false, 5), note(2, "b", false, 9), note(3, "c", false, 9)],
        vec![],
        3,
        0,
    )
    .unwrap();
    assert_eq!(store.ensure_default_note(0).unwrap(), 2);
    assert!(store.get_note(2).unwrap().note.is_default);
    let mut exhausted = NotesManager::from_rows(vec![], vec![], i64::MAX, 0).unwrap();
    assert_eq!(exhausted.ensure_default_note(1), Err(NotesError::NoteIdsExhausted));
}

#[test]
fn append_places_blocks_after_the_last_position() {
    let mut store = NotesManager::from_rows(
        vec![note(1, "a", true, 0)],
        vec![block(1, 1, 7, "x"), block(2, 1, 3, "y")],
        1,
        2,
    )
    .unwrap();
    let b = store.append_block(1, "z".to_string(), block_source::MANUAL, 50).unwrap().0;
    assert_eq!((b.id, b.position, b.created_at), (3, 8, 50));
    assert_eq!(b.source, "manual");
    assert_eq!(store.get_note(1).unwrap().note.updated_at, 50);
    let blocks: Vec<i64> = store.get_note(1).unwrap().blocks.iter().map(|b| b.id).collect();
    assert_eq!(blocks, vec![2, 1, 3]);
    let mut overflow = NotesManager::from_rows(
        vec![note(1, "a", true, 0)],
        vec![block(1, 1, i64::MAX, "x")],
        1,
        1,
    )
    .unwrap();
    assert_eq!(overflow.next_position(1), Err(NotesError::PositionOverflow));
    assert_eq!(overflow.append_block(1, "z".to_string(), "manual", 1), Err(NotesError::PositionOverflow));
    let mut no_ids =
        NotesManager::from_rows(vec![note(1, "a", true, 0)], vec![], 1, i64::MAX).unwrap();
    assert_eq!(no_ids.append_block(1, "z".to_string(), "manual", 1), Err(NotesError::BlockIdsExhausted));
}

#[test]
fn append_to_default_skips_blank_and_tags_source() {
    let mut store = NotesManager::new();
    assert_eq!(store.append_to_default(" \n ", true, 1), Ok(None));
    assert_eq!(store.notes().len(), 0);
    let b = store.append_to_default("hello", true, 2).unwrap().unwrap().0;
    assert_eq!(b.source, block_source::POST_PROCESSED);
    let c = store.append_to_default("again", false, 7).unwrap().unwrap().0;
    assert_eq!(c.source, block_source::DICTATION);
    assert_eq!(c.note_id, b.note_id);
    assert_eq!(c.position, 1);
    assert_eq!(store.notes().len(), 1);
}

#[test]
fn update_and_post_process_edit_in_place() {
    let mut store =
        NotesManager::from_rows(vec![note(1, "a", true, 0)], vec![block(1, 1, 0, "raw")], 1, 1).unwrap();
    let b = store.update_block(1, "edited".to_string(), 11).unwrap().0;
    assert_eq!((b.content.as_str(), b.source.as_str()), ("edited", "dictation"));
    assert_eq!(store.get_block(1).unwrap().content, "edited");
    let p = store.apply_post_processed_content(1, "Clean.".to_string(), 12).unwrap().0;
    assert_eq!(p.source, "post_processed");
    assert_eq!(store.get_block(1).unwrap().content, "Clean.");
    assert_eq!(store.update_block(2, "x".to_string(), 13), Err(NotesError::BlockNotFound(2)));
    assert_eq!(store.get_note(1).unwrap().note.updated_at, 12);
}

#[test]
fn delete_and_move_blocks() {
    let mut store = NotesManager::from_rows(
        vec![note(1, "a", true, 0), note(2, "b", false, 0)],
        vec![block(1, 1, 0, "one"), block(2, 2, 4, "two"), block(3, 1, 1, "three")],
        2,
        3,
    )
    .unwrap();
    let moved = store.move_block(1, 2, 9).unwrap().0;
    assert_eq!((moved.id, moved.note_id, moved.position), (1, 2, 5));
    assert_eq!(moved.content, "one");
    assert_eq!(store.blocks().len(), 3);
    assert_eq!(store.move_block(1, 7, 10), Err(NotesError::TargetNoteNotFound(7)));
    assert_eq!(store.move_block(8, 1, 10), Err(NotesError::BlockNotFound(8)));
    store.delete_block(3, 12).unwrap();
    assert_eq!(store.get_block(3), None);
    assert_eq!(store.get_note(1).unwrap().note.updated_at, 12);
    assert_eq!(store.delete_block(3, 13), Err(NotesError::BlockNotFound(3)));
}

#[test]
fn split_moves_selection_and_keeps_remainder() {
    let mut store = NotesManager::from_rows(
        vec![note(1, "a", true, 0), note(2, "b", false, 0)],
        vec![block(1, 1, 0, "Follow-up items: finalize the thing, confirm tokens.")],
        2,
        1,
    )
    .unwrap();
    let new_block = store.split_and_move_block(1, 17, 35, 2, 5).unwrap().0;
    assert_eq!(new_block.content, "finalize the thing");
    assert_eq!((new_block.id, new_block.note_id, new_block.position), (2, 2, 0));
    assert_eq!(new_block.source, "dictation");
    assert_eq!(store.get_block(1).unwrap().content, "Follow-up items: , confirm tokens.");
    // selecting everything deletes the original block
    let all = store.split_and_move_block(1, 0, 1000, 2, 6).unwrap().0;
    assert_eq!(all.content, "Follow-up items: , confirm tokens.");
    assert_eq!(store.get_block(1), None);
    assert_eq!(all.position, 1);
    // empty selections are refused and change nothing
    assert_eq!(store.split_and_move_block(2, 3, 3, 1, 7), Err(NotesError::EmptySelection));
    assert_eq!(store.split_and_move_block(2, 50, 10, 1, 8), Err(NotesError::EmptySelection));
    assert_eq!(store.split_and_move_block(2, 0, 1, 9, 8), Err(NotesError::TargetNoteNotFound(9)));
    assert_eq!(store.split_and_move_block(9, 0, 1, 1, 8), Err(NotesError::BlockNotFound(9)));
    assert_eq!(store.blocks().len(), 2);
}

#[test]
fn split_within_the_same_note_and_unicode_offsets() {
    let mut store =
        NotesManager::from_rows(vec![note(1, "a", true, 0)], vec![block(1, 1, 0, "héllo wörld")], 1, 1)
            .unwrap();
    let b = store.split_and_move_block(1, 6, 11, 1, 8).unwrap().0;
    assert_eq!(b.content, "wörld");
    assert_eq!(b.position, 1);
    assert_eq!(store.get_block(1).unwrap().content, "héllo");
}

#[test]
fn split_failing_late_rolls_back() {
    let mut store = NotesManager::from_rows(
        vec![note(1, "a", true, 0)],
        vec![block(1, 1, i64::MAX - 1, "keep this"), block(2, 1, i64::MAX, "xy")],
        1,
        2,
    )
    .unwrap();
    // the remainder of block 1 stays, so the note's last position is still i64::MAX
    assert_eq!(store.split_and_move_block(1, 0, 4, 1, 3), Err(NotesError::PositionOverflow));
    assert_eq!(store.get_block(1).unwrap().content, "keep this");
    // taking all of block 2 removes it, making room at the end
    let b = store.split_and_move_block(2, 0, 2, 1, 3).unwrap().0;
    assert_eq!(b.position, i64::MAX);
    let mut no_ids = NotesManager::from_rows(
        vec![note(1, "a", true, 0)],
        vec![block(1, 1, 0, "abc")],
        1,
        i64::MAX,
    )
    .unwrap();
    assert_eq!(no_ids.split_and_move_block(1, 0, 1, 1, 3), Err(NotesError::BlockIdsExhausted));
    assert_eq!(no_ids.get_block(1).unwrap().content, "abc");
}

#[test]
fn get_note_lists_blocks_by_position() {
    let store = NotesManager::from_rows(
        vec![note(1, "a", true, 0)],
        vec![block(1, 1, 2, "c"), block(2, 1, 0, "a"), block(3, 1, 1, "b"), block(4, 5, 0, "orphan")],
        1,
        4,
    )
    .unwrap();
    let n = store.get_note(1).unwrap();
    let contents: Vec<&str> = n.blocks.iter().map(|b| b.content.as_str()).collect();
    assert_eq!(contents, vec!["a", "b", "c"]);
    assert!(store.get_note(5).is_none());
}

#[test]
fn rows_out_of_order_are_refused() {
    assert!(NotesManager::from_rows(vec![note(2, "a", false, 0), note(1, "b", false, 0)], vec![], 2, 0).is_none());
    // ids need not be positive, only increasing
    let store = NotesManager::from_rows(vec![note(-4, "a", false, 0), note(0, "b", false, 0)], vec![], 0, 0).unwrap();
    assert_eq!(store.note_seq(), 0);
    assert!(NotesManager::from_rows(vec![], vec![block(1, 1, 0, "x"), block(1, 1, 1, "y")], 0, 1).is_none());
    let store = NotesManager::from_rows(vec![note(5, "a", false, 0)], vec![], 2, -3).unwrap();
    assert_eq!((store.note_seq(), store.block_seq()), (5, 0));
}

#[test]
fn move_notifications_name_each_note_once() {
    assert_eq!(block_moved_notifications(1, 1), vec![NoteUpdatePayload::NoteChanged { note_id: 1 }]);
    assert_eq!(
        block_moved_notifications(1, 2),
        vec![NoteUpdatePayload::NoteChanged { note_id: 1 }, NoteUpdatePayload::NoteChanged { note_id: 2 }]
    );
}

#[test]
fn request_checks() {
    assert_eq!(selection_offsets(2, 5), Some((2, 5)));
    assert_eq!(selection_offsets(-1, 5), None);
    assert_eq!(selection_offsets(1, -5), None);
    assert_eq!(llm_reply(1, Some("done".to_string()), None), Ok("done".to_string()));
    assert_eq!(llm_reply(1, None, Some("ignored".to_string())), Ok(String::new()));
    assert_eq!(llm_reply(0, None, None), Err("Unknown error".to_string()));
    assert_eq!(llm_reply(2, Some("x".to_string()), Some("busy".to_string())), Err("busy".to_string()));
}

#[test]
fn ids_are_not_reused_after_deletion() {
    let mut store = NotesManager::new();
    let a = store.create_note("a".to_string(), 1).unwrap().0;
    let b = store.create_note("b".to_string(), 1).unwrap().0;
    store.delete_note(b.id).unwrap();
    let c = store.create_note("c".to_string(), 2).unwrap().0;
    assert_eq!((a.id, b.id, c.id), (1, 2, 3));
    // creating and renaming leave the default note alone
    store.set_default_note(1).unwrap();
    store.create_note("d".to_string(), 3).unwrap().0;
    store.rename_note(1, "A".to_string(), 4).unwrap();
    let defaults: Vec<i64> = store.notes().iter().filter(|n| n.is_default).map(|n| n.id).collect();
    assert_eq!(defaults, vec![1]);
}

#[test]
fn captured_text_lands_in_the_default_note() {
    let mut store = NotesManager::from_rows(
        vec![note(1, "a", false, 0), note(2, "b", true, 0)],
        vec![],
        2,
        0,
    )
    .unwrap();
    let b = store.append_to_default("captured", false, 3).unwrap().unwrap().0;
    assert_eq!(b.note_id, 2);
    assert_eq!(store.get_note(2).unwrap().note.updated_at, 3);
}

#[test]
fn ensure_default_note_clears_extra_defaults() {
    let mut store = NotesManager::from_rows(
        vec![note(1, "a", false, 0), note(2, "b", true, 0), note(3, "c", true, 9)],
        vec![],
        3,
        0,
    )
    .unwrap();
    assert_eq!(store.ensure_default_note(5).unwrap(), 2);
    let defaults: Vec<i64> = store.notes().iter().filter(|n| n.is_default).map(|n| n.id).collect();
    assert_eq!(defaults, vec![2]);
    // nothing else changes
    assert_eq!(store.get_note(3).unwrap().note.updated_at, 9);
}

#[test]
fn notifications_follow_the_change() {
    assert_eq!(notifications(NotesChange::NoteCreated), vec![NoteUpdatePayload::NotesChanged]);
    assert_eq!(notifications(NotesChange::DefaultNoteSet), vec![NoteUpdatePayload::NotesChanged]);
    assert_eq!(
        notifications(NotesChange::BlockDeleted { note_id: 4 }),
        vec![NoteUpdatePayload::NoteChanged { note_id: 4 }]
    );
    assert_eq!(
        notifications(NotesChange::BlockMoved { source_note_id: 1, target_note_id: 2 }),
        vec![NoteUpdatePayload::NoteChanged { note_id: 1 }, NoteUpdatePayload::NoteChanged { note_id: 2 }]
    );
    assert_eq!(
        notifications(NotesChange::BlockMoved { source_note_id: 3, target_note_id: 3 }),
        vec![NoteUpdatePayload::NoteChanged { note_id: 3 }]
    );
}

#[test]
fn operations_report_the_change_they_made() {
    let mut store = NotesManager::from_rows(
        vec![note(1, "a", true, 0), note(2, "b", false, 0)],
        vec![block(1, 1, 0, "one two"), block(2, 2, 0, "x")],
        2,
        2,
    )
    .unwrap();
    assert_eq!(store.create_note("c".to_string(), 1).unwrap().1, NotesChange::NoteCreated);
    assert_eq!(store.rename_note(3, "C".to_string(), 1), Ok(NotesChange::NoteRenamed));
    assert_eq!(store.set_default_note(2), Ok(NotesChange::DefaultNoteSet));
    assert_eq!(store.delete_note(3), Ok(NotesChange::NoteDeleted));
    assert_eq!(
        store.append_block(1, "y".to_string(), "manual", 2).unwrap().1,
        NotesChange::BlockAppended { note_id: 1 }
    );
    assert_eq!(
        store.append_to_default("cap", false, 2).unwrap().unwrap().1,
        NotesChange::BlockAppended { note_id: 2 }
    );
    assert_eq!(
        store.update_block(2, "z".to_string(), 3).unwrap().1,
        NotesChange::BlockEdited { note_id: 2 }
    );
    assert_eq!(
        store.apply_post_processed_content(2, "Z".to_string(), 3).unwrap().1,
        NotesChange::BlockEdited { note_id: 2 }
    );
    assert_eq!(
        store.move_block(2, 1, 4).unwrap().1,
        NotesChange::BlockMoved { source_note_id: 2, target_note_id: 1 }
    );
    assert_eq!(
        store.split_and_move_block(1, 0, 3, 2, 5).unwrap().1,
        NotesChange::BlockMoved { source_note_id: 1, target_note_id: 2 }
    );
    assert_eq!(store.delete_block(1, 6), Ok(NotesChange::BlockDeleted { note_id: 1 }));
    // refusals report no change
    assert_eq!(store.delete_block(1, 7), Err(NotesError::BlockNotFound(1)));
}
