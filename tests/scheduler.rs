use match_scheduler::scheduler::SchedulerState;
use match_scheduler::seeder::round_pairs;
use match_scheduler::types::{
    ErrorKind, Item, Judge, MatchPair, MatchWinner, SchedulerError, States, Winner,
    INITIAL_ELO_BITS,
};
use std::collections::{HashMap, HashSet};

fn item(id: &str) -> Item {
    Item {
        id: id.to_string(),
        name: format!("item {}", id),
        location: "hall".to_string(),
        description: String::new(),
        score_bits: INITIAL_ELO_BITS,
    }
}

fn judge() -> Judge {
    Judge::from_id("judge@example.org".to_string(), "J".to_string())
}

fn scheduler_with(ids: &[&str]) -> SchedulerState {
    let mut s = SchedulerState::new();
    s.add_items(ids.iter().map(|i| item(i)).collect());
    s
}

fn appearances(matches: &[MatchPair]) -> HashMap<String, usize> {
    let mut seen: HashMap<String, usize> = HashMap::new();
    for m in matches {
        *seen.entry(m.i1.clone()).or_insert(0) += 1;
        *seen.entry(m.i2.clone()).or_insert(0) += 1;
    }
    seen
}

#[test]
fn empty_seed_then_empty_queue() {
    let mut s = SchedulerState::new();
    s.add_items(vec![]);
    assert!(s.seed_start(5));
    assert!(s.get_match_pairs().is_empty());
    assert_eq!(s.get_matches().len(), 0);
    assert_eq!(s.get_state(), States::Init);
    let e = s.give_judge_next_match(&judge()).unwrap_err();
    assert_eq!(e.kind, ErrorKind::EmptyQueue);
    assert_eq!(s.get_state(), States::Init);
}

#[test]
fn two_items_one_round() {
    let mut s = scheduler_with(&["A", "B"]);
    assert!(s.seed_start(1));
    let seeded = s.get_match_pairs();
    assert_eq!(seeded.len(), 1);
    let id = seeded[0].match_pair_id.clone();

    let first = s.give_judge_next_match(&judge()).unwrap();
    assert_eq!(first.match_pair_id, id);
    assert_eq!(first.visit_count, 1);
    assert_eq!(first.judge_id, Some("J".to_string()));
    assert_eq!(s.get_state(), States::Init);

    let second = s.give_judge_next_match(&judge()).unwrap();
    assert_eq!(second.match_pair_id, id);
    assert_eq!(second.visit_count, 2);
    assert_eq!(s.get_state(), States::Continuous);

    let third = s.give_judge_next_match(&judge()).unwrap();
    assert_ne!(third.match_pair_id, id);
    assert_eq!(third.visit_count, 1);
    let pair: HashSet<String> = [third.i1.clone(), third.i2.clone()].into_iter().collect();
    let expected: HashSet<String> = ["A".to_string(), "B".to_string()].into_iter().collect();
    assert_eq!(pair, expected);
    assert_eq!(s.get_match_pairs().len(), 2);
}

#[test]
fn odd_parity_rounds() {
    let mut s = scheduler_with(&["A", "B", "C"]);
    assert!(s.seed_start(2));
    let matches = s.get_match_pairs();
    assert_eq!(matches.len(), 4);
    for m in &matches {
        assert_ne!(m.i1, m.i2);
        assert_eq!(m.visit_count, 0);
        assert_eq!(m.winner, None);
        assert_eq!(m.judge_id, None);
    }
    let seen = appearances(&matches);
    assert_eq!(seen.values().sum::<usize>(), 8);
    for id in ["A", "B", "C"] {
        assert!(seen[id] >= 2);
    }
}

#[test]
fn seed_count_is_rounds_times_half_rounded_up() {
    let mut s = scheduler_with(&["A", "B", "C", "D", "E"]);
    assert!(s.seed_start(3));
    assert_eq!(s.get_match_pairs().len(), 9);
    let ids: HashSet<String> = s.get_match_pairs().into_iter().map(|m| m.match_pair_id).collect();
    assert_eq!(ids.len(), 9);
}

#[test]
fn every_item_plays_in_each_round() {
    let mut s = scheduler_with(&["A", "B", "C", "D"]);
    assert!(s.seed_start(1));
    let seen = appearances(&s.get_match_pairs());
    for id in ["A", "B", "C", "D"] {
        assert_eq!(seen[id], 1);
    }
}

#[test]
fn rounds_are_shuffled() {
    let mut s = scheduler_with(&["A", "B", "C", "D"]);
    assert!(s.seed_start(30));
    let mut pairings: HashSet<(String, String)> = HashSet::new();
    for m in s.get_match_pairs() {
        let (a, b) = if m.i1 < m.i2 { (m.i1, m.i2) } else { (m.i2, m.i1) };
        pairings.insert((a, b));
    }
    assert!(pairings.len() > 2);
}

#[test]
fn judgment_records_winner_and_asks_for_update() {
    let mut s = scheduler_with(&["A", "B"]);
    assert!(s.seed_start(1));
    let m = s.give_judge_next_match(&judge()).unwrap();
    let update = s.judge_match(&judge(), &m.match_pair_id, MatchWinner::A).unwrap().unwrap();
    assert_eq!(update.first.id, m.i1);
    assert_eq!(update.second.id, m.i2);
    assert_eq!(update.winner, Winner::P1);
    assert_eq!(f64::from_bits(update.first.score_bits), 1000.0);
    assert_eq!(f64::from_bits(update.second.score_bits), 1000.0);
    let stored = s.get_matches().get(&m.match_pair_id).map(|e| e.value().clone()).unwrap();
    assert_eq!(stored.winner, Some(MatchWinner::A));
    assert_eq!(stored.visit_count, 1);

    let again = s.judge_match(&judge(), &m.match_pair_id, MatchWinner::B).unwrap().unwrap();
    assert_eq!(again.winner, Winner::P2);
    let stored = s.get_matches().get(&m.match_pair_id).map(|e| e.value().clone()).unwrap();
    assert_eq!(stored.winner, Some(MatchWinner::B));
}

#[test]
fn judgment_of_unknown_match_is_rejected() {
    let mut s = scheduler_with(&["A", "B"]);
    assert!(s.seed_start(1));
    let e = s.judge_match(&judge(), "missing", MatchWinner::A).unwrap_err();
    assert_eq!(e.kind, ErrorKind::NotFound);
    assert!(s.get_match_pairs().iter().all(|m| m.winner.is_none()));
}

#[test]
fn double_start_rejected() {
    let mut s = scheduler_with(&["A", "B", "C", "D"]);
    assert!(s.seed_start(1));
    let before: HashSet<String> = s.get_match_pairs().into_iter().map(|m| m.match_pair_id).collect();
    assert!(!s.seed_start(1));
    let after: HashSet<String> = s.get_match_pairs().into_iter().map(|m| m.match_pair_id).collect();
    assert_eq!(before, after);
    assert_eq!(s.get_state(), States::Init);
}

#[test]
fn continuous_phase_freshness() {
    let mut s = scheduler_with(&["A", "B", "C", "D"]);
    assert!(s.seed_start(1));
    let seeded: HashSet<String> = s.get_match_pairs().into_iter().map(|m| m.match_pair_id).collect();
    assert_eq!(seeded.len(), 2);
    let mut served: HashSet<String> = HashSet::new();
    for _ in 0..2 {
        let m = s.give_judge_next_match(&judge()).unwrap();
        assert_eq!(m.visit_count, 1);
        served.insert(m.match_pair_id);
    }
    assert_eq!(served, seeded);
    let next = s.give_judge_next_match(&judge()).unwrap();
    assert_eq!(s.get_state(), States::Continuous);
    let fresh = !seeded.contains(&next.match_pair_id) && next.visit_count == 1;
    let requeued = seeded.contains(&next.match_pair_id) && next.visit_count == 2;
    assert!(fresh || requeued);
}

#[test]
fn seed_phase_serves_unvisited_first() {
    let mut s = scheduler_with(&["A", "B", "C", "D", "E", "F"]);
    assert!(s.seed_start(2));
    for _ in 0..6 {
        let m = s.give_judge_next_match(&judge()).unwrap();
        assert_eq!(m.visit_count, 1);
    }
    assert!(s.get_match_pairs().iter().all(|m| m.visit_count == 1));
}

#[test]
fn next_match_before_seeding_is_invalid() {
    let mut s = scheduler_with(&["A", "B"]);
    let e = s.give_judge_next_match(&judge()).unwrap_err();
    assert_eq!(e.kind, ErrorKind::InvalidState);
    assert_eq!(s.get_state(), States::NoState);
}

#[test]
fn single_item_runs_out_of_pairs() {
    let mut s = scheduler_with(&["A"]);
    assert!(s.seed_start(1));
    let m = s.give_judge_next_match(&judge()).unwrap();
    assert_eq!(m.i1, "A");
    assert_eq!(m.i2, "A");
    assert!(s.judge_match(&judge(), &m.match_pair_id, MatchWinner::A).unwrap().is_none());
    assert_eq!(s.give_judge_next_match(&judge()).unwrap().visit_count, 2);
    let e = s.give_judge_next_match(&judge()).unwrap_err();
    assert_eq!(e.kind, ErrorKind::NotEnoughItems);
}

#[test]
fn synthesized_pairs_are_distinct_items() {
    let mut s = scheduler_with(&["A", "B", "C"]);
    assert!(s.seed_start(1));
    let seeded: HashSet<String> = s.get_match_pairs().into_iter().map(|m| m.match_pair_id).collect();
    let mut drawn: HashSet<(String, String)> = HashSet::new();
    for _ in 0..40 {
        let m = s.give_judge_next_match(&judge()).unwrap();
        assert_ne!(m.i1, m.i2);
        if !seeded.contains(&m.match_pair_id) && m.visit_count == 1 {
            let (a, b) = if m.i1 < m.i2 { (m.i1, m.i2) } else { (m.i2, m.i1) };
            drawn.insert((a, b));
        }
    }
    assert!(drawn.len() > 1);
}

#[test]
fn set_score_changes_one_item() {
    let mut s = scheduler_with(&["A", "B"]);
    assert!(s.set_score("A", 1015.0f64.to_bits()));
    assert!(!s.set_score("Z", 0));
    for i in s.get_items() {
        let expected = if i.id == "A" { 1015.0 } else { 1000.0 };
        assert_eq!(f64::from_bits(i.score_bits), expected);
    }
}

#[test]
fn add_item_overwrites_same_id() {
    let mut s = SchedulerState::new();
    s.add_item(item("A"));
    let mut renamed = item("A");
    renamed.name = "second".to_string();
    s.add_item(renamed);
    let items = s.get_items();
    assert_eq!(items.len(), 1);
    assert_eq!(items[0].name, "second");
}

#[test]
fn judges_are_kept_in_order() {
    let mut s = SchedulerState::new();
    s.add_judge(Judge::from_id("a@x".to_string(), "1".to_string()));
    let mut more = vec![
        Judge::from_id("b@x".to_string(), "2".to_string()),
        Judge::from_id("c@x".to_string(), "3".to_string()),
    ];
    s.add_judges(&mut more);
    assert!(more.is_empty());
    let ids: Vec<String> = s.get_judges().into_iter().map(|j| j.id).collect();
    assert_eq!(ids, vec!["1", "2", "3"]);
}

#[test]
fn judges_equal_by_id() {
    let a = Judge::from_id("a@x".to_string(), "1".to_string());
    let b = Judge::from_id("b@x".to_string(), "1".to_string());
    let c = Judge::from_id("a@x".to_string(), "2".to_string());
    assert!(a == b);
    assert!(a != c);
}

#[test]
fn new_items_and_judges_get_fresh_ids() {
    let x = Item::new("x".to_string(), "hall".to_string(), "d".to_string());
    let y = Item::new("y".to_string(), "hall".to_string(), "d".to_string());
    assert_eq!(x.id.len(), 36);
    assert_ne!(x.id, y.id);
    assert_eq!(f64::from_bits(x.score_bits), 1000.0);
    let j = Judge::new("j@x".to_string());
    assert_eq!(j.id.len(), 36);
    assert_eq!(j.email, "j@x");
}

#[test]
fn error_messages() {
    let e = SchedulerError::new("boom");
    assert_eq!(e.kind, ErrorKind::Other);
    assert_eq!(e.message(), "boom");
    let mut s = SchedulerState::new();
    let e = s.give_judge_next_match(&judge()).unwrap_err();
    assert_eq!(e.message(), "cannot get next match in None state");
}

#[test]
fn round_pairs_even_and_odd() {
    assert_eq!(round_pairs(&vec![0, 1, 2, 3]), vec![(0, 3), (1, 2)]);
    assert_eq!(round_pairs(&vec![4, 5, 6]), vec![(4, 6), (4, 5)]);
    assert_eq!(round_pairs(&vec![7]), vec![(7, 7)]);
    assert!(round_pairs(&vec![]).is_empty());
}

fn pair(a: &str, b: &str) -> (String, String) {
    (a.to_string(), b.to_string())
}

#[test]
fn seed_pairs_stores_each_pair_under_its_id() {
    let mut s = scheduler_with(&["A", "B", "C"]);
    let pairs = vec![pair("A", "B"), pair("C", "A")];
    let ids = vec!["m1".to_string(), "m2".to_string()];
    assert!(s.seed_pairs(&pairs, &ids));
    assert_eq!(s.get_state(), States::Init);
    let store = s.get_matches();
    assert_eq!(store.len(), 2);
    let m1 = store.get("m1").map(|e| e.value().clone()).unwrap();
    assert_eq!((m1.i1.as_str(), m1.i2.as_str()), ("A", "B"));
    let m2 = store.get("m2").map(|e| e.value().clone()).unwrap();
    assert_eq!((m2.i1.as_str(), m2.i2.as_str()), ("C", "A"));
    assert_eq!(m2.visit_count, 0);
}

#[test]
fn seed_pairs_rejects_repeated_ids() {
    let mut s = scheduler_with(&["A", "B"]);
    let pairs = vec![pair("A", "B"), pair("B", "A")];
    let ids = vec!["m".to_string(), "m".to_string()];
    assert!(!s.seed_pairs(&pairs, &ids));
    assert_eq!(s.get_state(), States::NoState);
    assert!(s.get_match_pairs().is_empty());
    assert!(s.seed_pairs(&pairs, &vec!["m".to_string(), "n".to_string()]));
}

#[test]
fn seed_pairs_rejects_unknown_items_and_bad_lengths() {
    let mut s = scheduler_with(&["A", "B"]);
    assert!(!s.seed_pairs(&vec![pair("A", "Z")], &vec!["m".to_string()]));
    assert!(!s.seed_pairs(&vec![pair("A", "B")], &vec![]));
    assert_eq!(s.get_state(), States::NoState);
    assert!(s.seed_pairs(&vec![pair("A", "B")], &vec!["m".to_string()]));
    assert!(!s.seed_pairs(&vec![pair("A", "B")], &vec!["k".to_string()]));
    assert_eq!(s.get_match_pairs().len(), 1);
}

#[test]
fn queue_follows_visit_counts() {
    let mut s = scheduler_with(&["A", "B", "C"]);
    let pairs = vec![pair("A", "B"), pair("B", "C"), pair("A", "C")];
    let ids = vec!["x".to_string(), "y".to_string(), "z".to_string()];
    assert!(s.seed_pairs(&pairs, &ids));
    let mut order: Vec<String> = Vec::new();
    for _ in 0..3 {
        order.push(s.give_judge_next_match(&judge()).unwrap().match_pair_id);
    }
    order.sort();
    assert_eq!(order, vec!["x", "y", "z"]);
    let again = s.give_judge_next_match(&judge()).unwrap();
    assert_eq!(s.get_state(), States::Continuous);
    assert_eq!(again.visit_count, 2);
}

#[test]
fn drawn_pair_is_added_unless_its_id_is_taken() {
    let mut s = scheduler_with(&["A", "B", "C"]);
    assert!(s.seed_pairs(&vec![pair("A", "B")], &vec!["m".to_string()]));
    let m = s
        .add_drawn_pair("B".to_string(), "C".to_string(), "n".to_string())
        .unwrap();
    assert_eq!((m.i1.as_str(), m.i2.as_str(), m.visit_count), ("B", "C", 0));
    assert_eq!(s.get_match_pairs().len(), 2);
    let e = s
        .add_drawn_pair("A".to_string(), "C".to_string(), "m".to_string())
        .unwrap_err();
    assert_eq!(e.kind, ErrorKind::IdTaken);
    assert_eq!(s.get_match_pairs().len(), 2);
}

#[test]
fn transition_waits_for_every_match_to_be_served() {
    let mut s = scheduler_with(&["A", "B", "C"]);
    let pairs = vec![pair("A", "B"), pair("B", "C")];
    assert!(s.seed_pairs(&pairs, &vec!["x".to_string(), "y".to_string()]));
    s.state_machine_internal_transition();
    assert_eq!(s.get_state(), States::Init);
    s.give_judge_next_match(&judge()).unwrap();
    s.state_machine_internal_transition();
    assert_eq!(s.get_state(), States::Init);
    s.give_judge_next_match(&judge()).unwrap();
    s.state_machine_internal_transition();
    assert_eq!(s.get_state(), States::Continuous);
    let m = s.get_continuous_stage().unwrap();
    assert_eq!(m.visit_count, 1);
}

#[test]
fn items_compare_by_value() {
    assert_eq!(item("A"), item("A"));
    assert_ne!(item("A"), item("B"));
}
