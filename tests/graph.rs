use cdr_graph::{CallRecord, MessageRecord, RecordRepository};

fn call(p1: &str, p2: &str, duration: u32) -> CallRecord {
    CallRecord {
        index: 0,
        party1: p1.to_string(),
        party2: p2.to_string(),
        duration,
        timestamp: 0,
        cell_id: 0,
    }
}

fn message(p1: &str, p2: &str, length: u32) -> MessageRecord {
    MessageRecord { party1: p1.to_string(), party2: p2.to_string(), timestamp: 0, length }
}

fn edge_triples(repo: &RecordRepository) -> Vec<(String, String, usize)> {
    repo.get_edges().into_iter().map(|e| (e.user1, e.user2, e.weight)).collect()
}

fn sample() -> RecordRepository {
    let mut repo = RecordRepository::new();
    repo.add_call(call("c", "b", 1));
    repo.add_call(call("a", "b", 2));
    repo.add_call(call("b", "a", 3));
    repo.add_call(call("a", "a", 4));
    repo.add_message(message("b", "c", 5));
    repo.add_message(message("d", "a", 6));
    repo.add_message(message("d", "d", 7));
    repo
}

#[test]
fn call_and_message_between_two_parties() {
    let mut repo = RecordRepository::new();
    repo.add_call(call("partyA", "partyB", 5));
    repo.add_message(message("partyB", "partyA", 10));
    assert_eq!(repo.get_peers_for_user("partyA".to_string()), vec!["partyB".to_string()]);
    assert_eq!(edge_triples(&repo), vec![("partyA".to_string(), "partyB".to_string(), 2)]);
    let m = repo.get_connection_matrix();
    assert_eq!(m.users, vec!["partyA".to_string(), "partyB".to_string()]);
    assert_eq!(m.counts[0][1], 2);
    assert_eq!(m.counts[1][0], 2);
}

#[test]
fn self_call_gives_no_peer_and_no_edge() {
    let mut repo = RecordRepository::new();
    repo.add_call(call("partyA", "partyA", 3));
    assert!(repo.get_peers_for_user("partyA".to_string()).is_empty());
    assert!(repo.get_edges().is_empty());
    assert_eq!(repo.get_all_users(), vec!["partyA".to_string()]);
    assert_eq!(repo.get_connection_matrix().counts, vec![vec![0]]);
}

#[test]
fn empty_store_gives_empty_results() {
    let repo = RecordRepository::new();
    assert!(repo.get_all_users().is_empty());
    assert!(repo.get_peers_for_user("x".to_string()).is_empty());
    assert!(repo.get_edges().is_empty());
    let m = repo.get_connection_matrix();
    assert!(m.users.is_empty());
    assert!(m.counts.is_empty());
    let (calls, messages) = repo.get_records("x", None);
    assert!(calls.is_empty());
    assert!(messages.is_empty());
}

#[test]
fn users_in_canonical_order() {
    let repo = sample();
    assert_eq!(repo.get_all_users(), vec!["a", "b", "c", "d"]);
}

#[test]
fn matrix_counts_and_symmetry() {
    let repo = sample();
    let m = repo.get_connection_matrix();
    // users: a, b, c, d
    let expected = vec![
        vec![0, 2, 0, 1],
        vec![2, 0, 2, 0],
        vec![0, 2, 0, 0],
        vec![1, 0, 0, 0],
    ];
    assert_eq!(m.counts, expected);
    for i in 0..m.users.len() {
        assert_eq!(m.counts[i][i], 0);
        for j in 0..m.users.len() {
            assert_eq!(m.counts[i][j], m.counts[j][i]);
        }
    }
}

#[test]
fn edges_are_oriented_by_canonical_order() {
    let repo = sample();
    let expected = vec![
        ("b".to_string(), "c".to_string(), 2),
        ("a".to_string(), "b".to_string(), 2),
        ("a".to_string(), "d".to_string(), 1),
    ];
    assert_eq!(edge_triples(&repo), expected);
}

#[test]
fn edge_weights_add_up_to_records_between_distinct_parties() {
    let repo = sample();
    let total: usize = repo.get_edges().iter().map(|e| e.weight).sum();
    let distinct = repo.calls.iter().filter(|c| c.party1 != c.party2).count()
        + repo.messages.iter().filter(|m| m.party1 != m.party2).count();
    assert_eq!(total, 5);
    assert_eq!(total, distinct);
}

#[test]
fn edges_have_distinct_pairs() {
    let repo = sample();
    let edges = edge_triples(&repo);
    for i in 0..edges.len() {
        assert_ne!(edges[i].0, edges[i].1);
        for j in 0..edges.len() {
            if i != j {
                let same = (edges[i].0 == edges[j].0 && edges[i].1 == edges[j].1)
                    || (edges[i].0 == edges[j].1 && edges[i].1 == edges[j].0);
                assert!(!same);
            }
        }
    }
}

#[test]
fn peers_exclude_the_user() {
    let repo = sample();
    assert_eq!(repo.get_peers_for_user("a".to_string()), vec!["b".to_string(), "d".to_string()]);
    assert_eq!(repo.get_peers_for_user("b".to_string()), vec!["c".to_string(), "a".to_string()]);
    assert!(repo.get_peers_for_user("d".to_string()).iter().all(|p| p != "d"));
    assert!(repo.get_peers_for_user("nobody".to_string()).is_empty());
}

#[test]
fn queries_repeat_identically() {
    let repo = sample();
    assert_eq!(repo.get_connection_matrix().counts, repo.get_connection_matrix().counts);
    assert_eq!(repo.get_connection_matrix().users, repo.get_connection_matrix().users);
    assert_eq!(edge_triples(&repo), edge_triples(&repo));
    assert_eq!(repo.get_all_users(), repo.get_all_users());
    assert_eq!(repo.get_peers_for_user("b".to_string()), repo.get_peers_for_user("b".to_string()));
}

#[test]
fn party_index_resolves_records() {
    let repo = sample();
    let index = repo.party_index();
    assert_eq!(index.users, vec!["a", "b", "c", "d"]);
    assert_eq!(index.links, vec![(2, 1), (0, 1), (1, 0), (0, 0), (1, 2), (3, 0), (3, 3)]);
}

#[test]
fn order_ignores_slots_and_insertion() {
    let mut one = RecordRepository::new();
    one.add_message(message("x", "y", 1));
    assert_eq!(one.get_all_users(), vec!["x", "y"]);
    one.add_call(call("y", "x", 1));
    assert_eq!(one.get_all_users(), vec!["x", "y"]);
    let mut swapped = RecordRepository::new();
    swapped.add_call(call("y", "x", 1));
    assert_eq!(edge_triples(&swapped), vec![("x".to_string(), "y".to_string(), 1)]);
    let mut straight = RecordRepository::new();
    straight.add_call(call("x", "y", 1));
    assert_eq!(edge_triples(&straight), edge_triples(&swapped));
}

#[test]
fn canonical_order_is_bytewise() {
    let t = |a: &str, b: &str| cdr_graph::repository::text_lt(&a.to_string(), &b.to_string());
    assert!(t("a", "b"));
    assert!(!t("b", "a"));
    assert!(t("", "a"));
    assert!(!t("a", "a"));
    assert!(t("ab", "abc"));
    assert!(t("B", "a"));
    assert!(t("z", "\u{e9}"));
    let mut repo = RecordRepository::new();
    repo.add_call(call("\u{e9}t\u{e9}", "zoe", 1));
    repo.add_call(call("Zed", "abe", 1));
    assert_eq!(repo.get_all_users(), vec!["Zed", "abe", "zoe", "\u{e9}t\u{e9}"]);
}
