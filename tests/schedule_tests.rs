use mini_tcec::pairing::generate_pairings;
use mini_tcec::schedule::{
    all_terminal, compute_game_mapping, forfeit_result, is_engine_disabled, is_terminal, revert_active,
    update_schedule_state, EntryEvent, EntryState, ScheduleQueue, ENGINE_SPAWN_FAILURE_LIMIT,
};
use mini_tcec::types::{ScheduledGame, TournamentMode};

fn names(list: &[&str]) -> Vec<String> {
    list.iter().map(|s| s.to_string()).collect()
}

fn game(id: usize, white: &str, black: &str, state: &str, result: Option<&str>) -> ScheduledGame {
    ScheduledGame {
        id,
        white_name: white.to_string(),
        black_name: black.to_string(),
        state: state.to_string(),
        result: result.map(|r| r.to_string()),
    }
}

#[test]
fn pairings_per_mode() {
    assert_eq!(generate_pairings(TournamentMode::Match, 4), vec![(0, 1)]);
    assert_eq!(generate_pairings(TournamentMode::Gauntlet, 4), vec![(0, 1), (0, 2), (0, 3)]);
    assert_eq!(generate_pairings(TournamentMode::RoundRobin, 3), vec![(0, 1), (0, 2), (1, 2)]);
    assert_eq!(generate_pairings(TournamentMode::RoundRobin, 1), vec![]);
    assert_eq!(generate_pairings(TournamentMode::Match, 1), vec![]);
    assert_eq!(generate_pairings(TournamentMode::RoundRobin, 5).len(), 10);
}

#[test]
fn two_engine_match_swap_sides_schedule() {
    let pairs = generate_pairings(TournamentMode::Match, 2);
    let (q, events) = ScheduleQueue::new(&pairs, names(&["A", "B"]), true, 2);
    assert_eq!(events.len(), 2);
    assert_eq!((events[0].id, events[0].white_name.as_str(), events[0].black_name.as_str()), (1, "A", "B"));
    assert_eq!((events[1].id, events[1].white_name.as_str(), events[1].black_name.as_str()), (2, "B", "A"));
    assert!(events.iter().all(|e| e.state == "Pending" && e.result.is_none()));
    assert_eq!(q.items.len(), 2);
    assert_eq!(q.items[1].white_idx, 1);
    assert_eq!(q.items[1].black_idx, 0);
}

#[test]
fn zero_games_count_means_one_game() {
    let pairs = generate_pairings(TournamentMode::Match, 2);
    let (q, events) = ScheduleQueue::new(&pairs, names(&["A", "B"]), false, 0);
    assert_eq!(q.remaining_rounds, 1);
    assert_eq!(events.len(), 1);
}

#[test]
fn round_robin_schedule_ids_follow_pairings() {
    let pairs = generate_pairings(TournamentMode::RoundRobin, 3);
    let (q, events) = ScheduleQueue::new(&pairs, names(&["E0", "E1", "E2"]), false, 1);
    let ids: Vec<usize> = q.items.iter().map(|i| i.id).collect();
    assert_eq!(ids, vec![1, 2, 3]);
    assert_eq!((events[1].white_name.as_str(), events[1].black_name.as_str()), ("E0", "E2"));
    assert_eq!((events[2].white_name.as_str(), events[2].black_name.as_str()), ("E1", "E2"));
}

#[test]
fn shrink_removes_most_recent_and_grow_continues_ordinals() {
    let pairs = generate_pairings(TournamentMode::Match, 2);
    let (mut q, _) = ScheduleQueue::new(&pairs, names(&["A", "B"]), false, 3);
    let first = q.pop_front().unwrap();
    assert_eq!(first.id, 1);
    assert_eq!(q.pairings[0].dispatched, 1);
    let (removed, added) = q.update_remaining_rounds(2);
    assert_eq!(removed.len(), 1);
    assert_eq!(removed[0].id, 3);
    assert_eq!(removed[0].state, "Removed");
    assert!(added.is_empty());
    assert_eq!(q.items.iter().map(|i| i.id).collect::<Vec<_>>(), vec![2]);
    let (removed, added) = q.update_remaining_rounds(4);
    assert!(removed.is_empty());
    assert_eq!(added.iter().map(|g| g.id).collect::<Vec<_>>(), vec![4, 5]);
    assert!(added.iter().all(|g| g.state == "Pending"));
    assert_eq!(q.items.iter().map(|i| i.game_idx).collect::<Vec<_>>(), vec![1, 3, 4]);
    // waiting plus dispatched make the rounds value
    assert_eq!(q.items.len() + q.pairings[0].dispatched as usize, 4);
}

#[test]
fn update_remaining_rounds_twice_is_a_no_op() {
    let pairs = generate_pairings(TournamentMode::RoundRobin, 3);
    let (mut q, _) = ScheduleQueue::new(&pairs, names(&["E0", "E1", "E2"]), true, 4);
    q.pop_front();
    q.pop_front();
    q.update_remaining_rounds(2);
    let items: Vec<usize> = q.items.iter().map(|i| i.id).collect();
    let next = q.next_game_id;
    let (removed, added) = q.update_remaining_rounds(2);
    assert!(removed.is_empty() && added.is_empty());
    assert_eq!(q.items.iter().map(|i| i.id).collect::<Vec<_>>(), items);
    assert_eq!(q.next_game_id, next);
}

#[test]
fn pending_plus_dispatched_per_pairing() {
    let pairs = generate_pairings(TournamentMode::Gauntlet, 3);
    let (mut q, _) = ScheduleQueue::new(&pairs, names(&["A", "B", "C"]), false, 3);
    for _ in 0..4 {
        q.pop_front();
    }
    q.update_remaining_rounds(5);
    for (p, st) in q.pairings.iter().enumerate() {
        let pending = q.items.iter().filter(|i| i.pairing == p).count();
        assert_eq!(pending + st.dispatched as usize, 5);
    }
}

#[test]
fn shrink_below_dispatched_leaves_nothing_waiting() {
    let pairs = generate_pairings(TournamentMode::Match, 2);
    let (mut q, _) = ScheduleQueue::new(&pairs, names(&["A", "B"]), false, 3);
    q.pop_front();
    q.pop_front();
    let (removed, added) = q.update_remaining_rounds(1);
    assert_eq!(removed.len(), 1);
    assert!(added.is_empty());
    assert!(q.items.is_empty());
    assert!(q.pop_front().is_none());
}

#[test]
fn retire_takes_a_waiting_game_out() {
    let pairs = generate_pairings(TournamentMode::Match, 2);
    let (mut q, _) = ScheduleQueue::new(&pairs, names(&["A", "B"]), false, 3);
    assert_eq!(q.retire(2).map(|i| i.id), Some(2));
    assert!(q.retire(2).is_none());
    assert_eq!(q.items.iter().map(|i| i.id).collect::<Vec<_>>(), vec![1, 3]);
}

#[test]
fn game_mapping_of_fresh_schedule() {
    let pairs = vec![(0, 1), (0, 2)];
    assert_eq!(compute_game_mapping(&pairs, 2, 1), Some((0, 1, 0)));
    assert_eq!(compute_game_mapping(&pairs, 2, 3), Some((0, 2, 0)));
    assert_eq!(compute_game_mapping(&pairs, 2, 4), Some((0, 2, 1)));
    assert_eq!(compute_game_mapping(&pairs, 2, 5), None);
    assert_eq!(compute_game_mapping(&pairs, 2, 0), None);
    assert_eq!(compute_game_mapping(&pairs, 0, 1), None);
}

#[test]
fn resume_round_robin_of_ten_games() {
    let pairs = generate_pairings(TournamentMode::RoundRobin, 5);
    let engine_names = names(&["E0", "E1", "E2", "E3", "E4"]);
    let (_, events) = ScheduleQueue::new(&pairs, engine_names.clone(), false, 1);
    let mut saved: Vec<ScheduledGame> = events.clone();
    for k in 0..3 {
        saved[k].state = "Finished".to_string();
        saved[k].result = Some("1-0".to_string());
    }
    saved[3].state = "Active".to_string();
    revert_active(&mut saved);
    assert_eq!(saved[3].state, "Pending");
    assert!(saved[3].result.is_none());
    assert_eq!(saved[0].state, "Finished");
    let q = ScheduleQueue::resume(&pairs, engine_names, false, 1, &saved);
    assert_eq!(q.items.iter().map(|i| i.id).collect::<Vec<_>>(), vec![4, 5, 6, 7, 8, 9, 10]);
    assert!(!all_terminal(&saved));
}

#[test]
fn disabled_engines_and_forfeits() {
    let disabled = names(&["x", "y"]);
    assert!(is_engine_disabled(&disabled, &Some("y".to_string())));
    assert!(!is_engine_disabled(&disabled, &Some("z".to_string())));
    assert!(!is_engine_disabled(&disabled, &None));
    assert_eq!(forfeit_result(true, true), ("1/2-1/2 (forfeit)".to_string(), Some("1/2-1/2".to_string())));
    assert_eq!(forfeit_result(true, false), ("0-1 (forfeit)".to_string(), Some("0-1".to_string())));
    assert_eq!(forfeit_result(false, true), ("1-0 (forfeit)".to_string(), Some("1-0".to_string())));
    assert_eq!(forfeit_result(false, false), ("*".to_string(), None));
    assert_eq!(ENGINE_SPAWN_FAILURE_LIMIT, 3);
}

#[test]
fn schedule_state_replaced_or_appended() {
    let mut s = vec![game(1, "A", "B", "Pending", None), game(2, "B", "A", "Pending", None)];
    update_schedule_state(&mut s, game(2, "B", "A", "Finished", Some("0-1")));
    assert_eq!(s.len(), 2);
    assert_eq!(s[1].state, "Finished");
    update_schedule_state(&mut s, game(3, "A", "B", "Active", None));
    assert_eq!(s.len(), 3);
    assert_eq!(s[2].id, 3);
    assert!(!all_terminal(&s));
    let done = vec![game(1, "A", "B", "Finished", Some("1-0")), game(2, "A", "B", "Skipped", None), game(3, "A", "B", "Removed", None)];
    assert!(all_terminal(&done));
    assert!(is_terminal("Aborted"));
    assert!(!is_terminal("Active"));
}

#[test]
fn entry_lifecycle() {
    assert_eq!(EntryState::Pending.next(EntryEvent::Dispatch), Some(EntryState::Active));
    assert_eq!(EntryState::Active.next(EntryEvent::Finish), Some(EntryState::Finished));
    assert_eq!(EntryState::Active.next(EntryEvent::Stop), Some(EntryState::Aborted));
    assert_eq!(EntryState::Pending.next(EntryEvent::Skip), Some(EntryState::Skipped));
    assert_eq!(EntryState::Pending.next(EntryEvent::Remove), Some(EntryState::Removed));
    assert_eq!(EntryState::Finished.next(EntryEvent::Abort), None);
    assert_eq!(EntryState::Removed.next(EntryEvent::Dispatch), None);
    assert_eq!(EntryState::Pending.next(EntryEvent::Finish), None);
    assert_eq!(EntryState::Aborted.as_str(), "Aborted");
}

#[test]
fn fresh_schedule_places_each_game_by_id() {
    let pairs = generate_pairings(TournamentMode::RoundRobin, 3);
    let (q, _) = ScheduleQueue::new(&pairs, names(&["E0", "E1", "E2"]), true, 2);
    assert_eq!(q.next_game_id, 6);
    for (m, it) in q.items.iter().enumerate() {
        assert_eq!(it.pairing, m / 2);
        assert_eq!(it.game_idx, m % 2);
    }
    assert_eq!((q.items[3].white_idx, q.items[3].black_idx), (2, 0));
}

#[test]
fn resume_requeues_the_reverted_game_and_counts_dispatched() {
    let pairs = generate_pairings(TournamentMode::Match, 2);
    let engine_names = names(&["A", "B"]);
    let (_, events) = ScheduleQueue::new(&pairs, engine_names.clone(), false, 3);
    let mut saved = events;
    saved[0].state = "Finished".to_string();
    saved[1].state = "Active".to_string();
    revert_active(&mut saved);
    let q = ScheduleQueue::resume(&pairs, engine_names, false, 3, &saved);
    assert_eq!(q.items.iter().map(|i| (i.id, i.game_idx)).collect::<Vec<_>>(), vec![(2, 1), (3, 2)]);
    assert_eq!(q.pairings[0].dispatched, 1);
    assert_eq!(q.next_game_id, 3);
}

#[test]
fn grown_games_take_the_next_ordinals() {
    let pairs = generate_pairings(TournamentMode::Gauntlet, 3);
    let (mut q, _) = ScheduleQueue::new(&pairs, names(&["A", "B", "C"]), false, 1);
    q.update_remaining_rounds(0);
    let (_, added) = q.update_remaining_rounds(2);
    assert_eq!(added.len(), 4);
    let fresh: Vec<(usize, usize)> = q.items.iter().map(|i| (i.pairing, i.game_idx)).collect();
    assert_eq!(fresh, vec![(0, 1), (0, 2), (1, 1), (1, 2)]);
    assert_eq!(q.pairings[0].next_game_idx, 3);
}
