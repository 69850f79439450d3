use cdr_graph::{CallRecord, CellRecord, MessageRecord, RecordRepository};

fn call(p1: &str, p2: &str, duration: u32) -> CallRecord {
    CallRecord {
        index: 0,
        party1: p1.to_string(),
        party2: p2.to_string(),
        duration,
        timestamp: 0,
        cell_id: 0,
    }
}

fn message(p1: &str, p2: &str, length: u32) -> MessageRecord {
    MessageRecord { party1: p1.to_string(), party2: p2.to_string(), timestamp: 0, length }
}

#[test]
fn record_repository_mocking() {
    let mut record_repository = RecordRepository::mocked(40);
    assert_eq!(record_repository.calls.len(), 40);
    record_repository.add_call(CallRecord::mocked());
    assert_eq!(record_repository.calls.len(), 41);
}

#[test]
fn mocked_store_numbers_calls() {
    let repo = RecordRepository::mocked(3);
    assert_eq!(repo.messages.len(), 0);
    assert_eq!(repo.cells.len(), 0);
    for (i, c) in repo.calls.iter().enumerate() {
        assert_eq!(c.index, i as u32);
        assert_eq!(c.duration, i as u32);
        assert_eq!(c.timestamp, i as u32);
        assert_eq!(c.cell_id, i as u32);
        assert_eq!(c.party1, "");
        assert_eq!(c.party2, "");
    }
}

#[test]
fn mocked_call_has_empty_parties() {
    let c = CallRecord::mocked();
    assert_eq!(c.party1, "");
    assert_eq!(c.party2, "");
}

#[test]
fn appends_keep_other_collections() {
    let mut repo = RecordRepository::new();
    repo.add_cell(CellRecord { cell_id: 7, latitude_micro: 48_856_600, longitude_micro: 2_352_200 });
    repo.add_message(message("a", "b", 3));
    repo.add_call(call("a", "c", 1));
    assert_eq!(repo.cells.len(), 1);
    assert_eq!(repo.cells[0].cell_id, 7);
    assert_eq!(repo.messages.len(), 1);
    assert_eq!(repo.calls.len(), 1);
    assert_eq!(repo.calls[0].party2, "c");
}

#[test]
fn records_of_one_user_and_of_a_pair() {
    let mut repo = RecordRepository::new();
    repo.add_call(call("a", "b", 1));
    repo.add_call(call("c", "a", 2));
    repo.add_call(call("b", "c", 3));
    repo.add_message(message("b", "a", 4));
    repo.add_message(message("c", "c", 5));
    let (calls, messages) = repo.get_records("a", None);
    assert_eq!(calls.iter().map(|c| c.duration).collect::<Vec<_>>(), vec![1, 2]);
    assert_eq!(messages.iter().map(|m| m.length).collect::<Vec<_>>(), vec![4]);
    let (calls, messages) = repo.get_records("a", Some("b"));
    assert_eq!(calls.iter().map(|c| c.duration).collect::<Vec<_>>(), vec![1]);
    assert_eq!(messages.iter().map(|m| m.length).collect::<Vec<_>>(), vec![4]);
    let (calls, messages) = repo.get_records("c", Some("b"));
    assert_eq!(calls.iter().map(|c| c.duration).collect::<Vec<_>>(), vec![3]);
    assert!(messages.is_empty());
    let (calls, messages) = repo.get_records("zed", None);
    assert!(calls.is_empty());
    assert!(messages.is_empty());
}

#[test]
fn add_sums() {
    assert_eq!(cdr_graph::add(2, 3), 5);
}

#[test]
fn unknown_cell_has_no_location() {
    let mut repo = RecordRepository::new();
    repo.add_cell(CellRecord { cell_id: 4, latitude_micro: 1, longitude_micro: 2 });
    repo.add_cell(CellRecord { cell_id: 9, latitude_micro: 3, longitude_micro: 4 });
    repo.add_cell(CellRecord { cell_id: 9, latitude_micro: 5, longitude_micro: 6 });
    repo.add_call(CallRecord { index: 0, party1: "a".to_string(), party2: "b".to_string(), duration: 1, timestamp: 0, cell_id: 77 });
    assert_eq!(repo.find_cell(9).map(|c| c.latitude_micro), Some(3));
    assert!(repo.find_cell(repo.calls[0].cell_id).is_none());
    assert_eq!(repo.get_edges().len(), 1);
}

#[test]
fn call_from_draws_keeps_values() {
    let c = CallRecord::from_draws(11, 22, 33, 44);
    assert_eq!(c.index, 11);
    assert_eq!(c.duration, 22);
    assert_eq!(c.timestamp, 33);
    assert_eq!(c.cell_id, 44);
    assert_eq!(c.party1, "");
    assert_eq!(c.party2, "");
}
