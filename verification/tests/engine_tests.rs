use pkmndraft::draft_engine::{
    get_rounds_and_pack_sizes, make_packs_from, make_random_packs, DraftState,
};
use pkmndraft::errors::DraftError;

fn ids(range: std::ops::Range<u64>) -> Vec<u64> {
    range.collect()
}

#[test]
fn rounds_table_matches_player_counts() {
    assert_eq!(get_rounds_and_pack_sizes(0), (0, 0));
    assert_eq!(get_rounds_and_pack_sizes(1), (1, 6));
    assert_eq!(get_rounds_and_pack_sizes(2), (3, 4));
    assert_eq!(get_rounds_and_pack_sizes(3), (3, 6));
    assert_eq!(get_rounds_and_pack_sizes(4), (3, 6));
    assert_eq!(get_rounds_and_pack_sizes(5), (2, 8));
    assert_eq!(get_rounds_and_pack_sizes(6), (2, 8));
    assert_eq!(get_rounds_and_pack_sizes(7), (0, 0));
}

#[test]
fn chunking_is_exact_and_in_order() {
    let input: Vec<u64> = vec![10, 11, 12, 13, 14, 15, 16];
    let packs = make_packs_from(3, 2, &input).unwrap();
    assert_eq!(packs, vec![vec![10, 11], vec![12, 13], vec![14, 15]]);
}

#[test]
fn chunking_twice_gives_identical_packs() {
    let input: Vec<u64> = vec![5, 4, 3, 2, 1, 0];
    let once = make_packs_from(2, 3, &input).unwrap();
    let twice = make_packs_from(2, 3, &input).unwrap();
    assert_eq!(once, twice);
}

#[test]
fn pack_generation_with_exactly_enough_items_succeeds() {
    let input = ids(0..12);
    let packs = make_random_packs(3, 4, &input).unwrap();
    assert_eq!(packs.len(), 3);
    for pack in &packs {
        assert_eq!(pack.len(), 4);
    }
    // Dealing every item: the packs together hold exactly the input set.
    let mut dealt: Vec<u64> = packs.concat();
    dealt.sort();
    assert_eq!(dealt, ids(0..12));
}

#[test]
fn pack_generation_one_item_short_fails() {
    let input = ids(0..11);
    let r = make_random_packs(3, 4, &input);
    assert_eq!(r.unwrap_err(), DraftError::PackGenInsufficientItems);
}

#[test]
fn one_player_draft_finishes_after_six_picks() {
    let packs = make_packs_from(1, 6, &ids(100..106)).unwrap();
    let mut draft = DraftState::new(vec![42], packs, 1);
    assert!(!draft.draft_is_done());
    for n in 0..6 {
        let state = draft.get_player_state(&42).unwrap();
        assert_eq!(state.allocated_items.len(), n);
        let pack_id = *state.pending_packs.front().unwrap();
        let head = draft.get_pack_contents(&pack_id).unwrap()[0];
        draft.pick(42, head).unwrap();
    }
    assert_eq!(draft.get_player_state(&42).unwrap().allocated_items.len(), 6);
    assert!(draft.round_is_done());
    assert!(draft.draft_is_done());
}

#[test]
fn pick_moves_pack_to_next_player_tail() {
    // Three players, forward direction: the pack a player just opened moves
    // to the tail of the next seat's queue, leaving the picker without packs.
    let packs = make_packs_from(3, 6, &ids(0..18)).unwrap();
    let mut draft = DraftState::new(vec![1, 2, 3], packs, 1);
    let head_pack = *draft.get_player_state(&1).unwrap().pending_packs.front().unwrap();
    let x = draft.get_pack_contents(&head_pack).unwrap()[0];
    draft.pick(1, x).unwrap();
    let picker = draft.get_player_state(&1).unwrap();
    assert_eq!(picker.allocated_items, vec![x]);
    assert!(picker.pending_packs.is_empty());
    let neighbor = draft.get_player_state(&2).unwrap();
    assert_eq!(neighbor.pending_packs.len(), 2);
    assert_eq!(*neighbor.pending_packs.back().unwrap(), head_pack);
    // The pack shrank by exactly the picked item.
    let contents = draft.get_pack_contents(&head_pack).unwrap();
    assert_eq!(contents.len(), 5);
    assert!(!contents.contains(&x));
}

#[test]
fn next_player_follows_snake_direction() {
    let packs = make_packs_from(3, 6, &ids(0..18)).unwrap();
    let draft = DraftState::new(vec![10, 20, 30], packs, 1);
    // Round zero passes forward.
    assert_eq!(draft.next_player_from(10).unwrap(), 20);
    assert_eq!(draft.next_player_from(30).unwrap(), 10);
    assert_eq!(
        draft.next_player_from(99).unwrap_err(),
        DraftError::PlayerNotFound
    );
}

#[test]
fn pick_errors_leave_draft_unchanged() {
    let packs = make_packs_from(2, 6, &ids(0..12)).unwrap();
    let mut draft = DraftState::new(vec![1, 2], packs, 1);
    let head_pack = *draft.get_player_state(&1).unwrap().pending_packs.front().unwrap();
    let before_contents = draft.get_pack_contents(&head_pack).unwrap().clone();

    // Unknown player.
    assert_eq!(draft.pick(9, 0).unwrap_err(), DraftError::PlayerNotFound);
    // Item not in the head pack (ids stop at 11).
    assert_eq!(draft.pick(1, 999).unwrap_err(), DraftError::ItemNotInPack);

    let state = draft.get_player_state(&1).unwrap();
    assert!(state.allocated_items.is_empty());
    assert_eq!(state.pending_packs.len(), 1);
    assert_eq!(draft.get_pack_contents(&head_pack).unwrap(), &before_contents);
}

#[test]
fn picking_with_empty_queue_reports_no_packs() {
    let packs = make_packs_from(2, 6, &ids(0..12)).unwrap();
    let mut draft = DraftState::new(vec![1, 2], packs, 1);
    let head_pack = *draft.get_player_state(&1).unwrap().pending_packs.front().unwrap();
    let head = draft.get_pack_contents(&head_pack).unwrap()[0];
    draft.pick(1, head).unwrap();
    // Player 1 passed their only pack away; a second pick finds none.
    assert_eq!(draft.pick(1, 1).unwrap_err(), DraftError::NoPacks);
}

#[test]
fn rounds_advance_and_flip_direction() {
    // Two players, two-round draft with packs of two items each.
    let packs = make_packs_from(4, 2, &ids(0..8)).unwrap();
    let mut draft = DraftState::new(vec![1, 2], packs, 2);
    assert_eq!(draft.num_rounds(), 2);
    assert_eq!(draft.rounds_remaining(), 1);
    assert!(draft.direction());
    for _ in 0..2 {
        for pid in [1u32, 2u32] {
            let pack_id = *draft
                .get_player_state(&pid)
                .unwrap()
                .pending_packs
                .front()
                .unwrap();
            let head = draft.get_pack_contents(&pack_id).unwrap()[0];
            draft.pick(pid, head).unwrap();
        }
    }
    assert!(draft.round_is_done());
    assert!(!draft.draft_is_done());
    draft.start_next_round().unwrap();
    assert_eq!(draft.current_round(), 1);
    assert!(!draft.direction());
    // One fresh pack per seat again.
    assert_eq!(draft.get_player_state(&1).unwrap().pending_packs.len(), 1);
    assert_eq!(draft.get_player_state(&2).unwrap().pending_packs.len(), 1);
    // Backward direction now.
    assert_eq!(draft.next_player_from(2).unwrap(), 1);
    assert_eq!(draft.next_player_from(1).unwrap(), 2);
}
