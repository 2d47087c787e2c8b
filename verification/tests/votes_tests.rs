use record_store::storage::RegionPool;
use record_store::store::Record;
use record_store::store::Store;
use record_store::votes::Vote;
use record_store::votes::VoteError;
use record_store::votes::VoteStore;

fn fresh_store() -> (RegionPool, VoteStore) {
    let pool = RegionPool::new();
    let store = VoteStore::open(pool.region(0), pool.region(1)).expect("fresh regions open");
    (pool, store)
}

fn add(store: &mut VoteStore, candidate: &str, voter: &str, now: u64) -> Vote {
    store
        .add_vote(candidate.to_string(), voter.to_string(), now)
        .expect("vote accepted")
}

#[test]
fn create_ids_are_sequential() {
    let (_pool, mut store) = fresh_store();
    let a = add(&mut store, "A", "v1", 10);
    let b = add(&mut store, "B", "v2", 11);
    let c = add(&mut store, "C", "v3", 12);
    assert_eq!(a.id, 1);
    assert_eq!(b.id, 2);
    assert_eq!(c.id, 3);
    store.delete_vote(2).expect("existing vote deleted");
    let d = add(&mut store, "D", "v4", 13);
    assert_eq!(d.id, 4);
}

#[test]
fn add_then_listing_holds_equal_record() {
    let (_pool, mut store) = fresh_store();
    let v = add(&mut store, "A", "v1", 42);
    let all = store.get_votes().expect("listing");
    assert_eq!(all.len(), 1);
    assert_eq!(all[0].id, v.id);
    assert_eq!(all[0].candidate, v.candidate);
    assert_eq!(all[0].voter, v.voter);
    assert_eq!(all[0].timestamp, v.timestamp);
}

#[test]
fn delete_then_lookup_fails_not_found() {
    let (_pool, mut store) = fresh_store();
    add(&mut store, "A", "v1", 1);
    add(&mut store, "B", "v2", 2);
    let deleted = store.delete_vote(1).expect("existing vote deleted");
    assert_eq!(deleted.id, 1);
    let read = store.update_vote(1, "A".to_string(), "v1".to_string(), 3);
    assert_eq!(read.unwrap_err(), VoteError::VoteNotFoundError);
    assert_eq!(store.total_votes().unwrap(), 1);
}

#[test]
fn delete_missing_leaves_store_unchanged() {
    let (_pool, mut store) = fresh_store();
    add(&mut store, "A", "v1", 1);
    let r = store.delete_vote(99);
    assert_eq!(r.unwrap_err(), VoteError::VoteNotFoundError);
    assert_eq!(store.total_votes().unwrap(), 1);
}

#[test]
fn update_preserves_id_and_advances_timestamp() {
    let (_pool, mut store) = fresh_store();
    let v = add(&mut store, "A", "v1", 100);
    let u = store
        .update_vote(v.id, "B".to_string(), "v9".to_string(), 150)
        .expect("existing vote updated");
    assert_eq!(u.id, v.id);
    assert_eq!(u.candidate, "B");
    assert_eq!(u.voter, "v9");
    assert!(u.timestamp >= v.timestamp);
    assert_eq!(u.timestamp, 150);
    assert_eq!(store.total_votes().unwrap(), 1);
}

#[test]
fn update_missing_fails_not_found() {
    let (_pool, mut store) = fresh_store();
    let r = store.update_vote(7, "A".to_string(), "v1".to_string(), 5);
    assert_eq!(r.unwrap_err(), VoteError::VoteNotFoundError);
}

#[test]
fn update_into_duplicate_pair_refused() {
    let (_pool, mut store) = fresh_store();
    add(&mut store, "A", "v1", 1);
    let second = add(&mut store, "B", "v2", 2);
    let r = store.update_vote(second.id, "A".to_string(), "v1".to_string(), 3);
    assert_eq!(r.unwrap_err(), VoteError::DuplicateVote);
    let all = store.get_votes().unwrap();
    assert_eq!(all[1].candidate, "B");
    assert_eq!(all[1].voter, "v2");
}

#[test]
fn clear_keeps_counter_fresh_ids_grow() {
    let (_pool, mut store) = fresh_store();
    add(&mut store, "A", "v1", 1);
    add(&mut store, "B", "v2", 2);
    store.clear_votes().expect("clear succeeds");
    assert_eq!(store.total_votes().unwrap(), 0);
    assert_eq!(store.get_votes().unwrap().len(), 0);
    let v = add(&mut store, "C", "v3", 3);
    assert_eq!(v.id, 3);
}

#[test]
fn crossed_time_range_yields_empty_not_error() {
    let (_pool, mut store) = fresh_store();
    add(&mut store, "A", "v1", 3);
    let r = store.get_votes_in_time_range(5, 1).expect("no error");
    assert_eq!(r.len(), 0);
}

#[test]
fn time_range_is_inclusive() {
    let (_pool, mut store) = fresh_store();
    add(&mut store, "A", "v1", 1);
    add(&mut store, "B", "v2", 2);
    add(&mut store, "C", "v3", 3);
    let r = store.get_votes_in_time_range(2, 3).unwrap();
    assert_eq!(r.len(), 2);
    assert_eq!(r[0].candidate, "B");
    assert_eq!(r[1].candidate, "C");
}

#[test]
fn duplicate_vote_refused_and_count_stays() {
    let (_pool, mut store) = fresh_store();
    add(&mut store, "X", "v1", 1);
    let r = store.add_vote("X".to_string(), "v1".to_string(), 2);
    assert_eq!(r.unwrap_err(), VoteError::DuplicateVote);
    assert_eq!(store.total_votes().unwrap(), 1);
}

#[test]
fn most_and_least_voted_candidates() {
    let (_pool, mut store) = fresh_store();
    add(&mut store, "A", "v1", 1);
    add(&mut store, "A", "v2", 2);
    add(&mut store, "B", "v3", 3);
    assert_eq!(store.get_most_voted_candidate().unwrap(), "A");
    assert_eq!(store.get_least_voted_candidate().unwrap(), "B");
}

#[test]
fn aggregate_on_empty_store_fails() {
    let (_pool, store) = fresh_store();
    assert_eq!(
        store.get_most_voted_candidate().unwrap_err(),
        VoteError::InsertFailed
    );
    assert_eq!(
        store.get_least_voted_candidate().unwrap_err(),
        VoteError::InsertFailed
    );
}

#[test]
fn candidates_and_counts_in_first_appearance_order() {
    let (_pool, mut store) = fresh_store();
    add(&mut store, "A", "v1", 1);
    add(&mut store, "B", "v2", 2);
    add(&mut store, "A", "v3", 3);
    let cands = store.get_candidates().unwrap();
    assert_eq!(cands, vec!["A".to_string(), "B".to_string()]);
    let counts = store.get_all_candidate_votes().unwrap();
    assert_eq!(counts.len(), 2);
    assert_eq!(counts[0], ("A".to_string(), 2));
    assert_eq!(counts[1], ("B".to_string(), 1));
}

#[test]
fn votes_filtered_by_candidate_and_voter() {
    let (_pool, mut store) = fresh_store();
    add(&mut store, "A", "v1", 1);
    add(&mut store, "B", "v1", 2);
    add(&mut store, "A", "v2", 3);
    let by_a = store.get_votes_by_candidate("A".to_string()).unwrap();
    assert_eq!(by_a.len(), 2);
    assert_eq!(by_a[0].id, 1);
    assert_eq!(by_a[1].id, 3);
    let by_v1 = store.get_votes_by_voter("v1".to_string()).unwrap();
    assert_eq!(by_v1.len(), 2);
    assert_eq!(by_v1[0].id, 1);
    assert_eq!(by_v1[1].id, 2);
}

#[test]
fn latest_timestamp_zero_when_empty_else_max() {
    let (_pool, mut store) = fresh_store();
    assert_eq!(store.get_latest_vote_timestamp().unwrap(), 0);
    add(&mut store, "A", "v1", 5);
    add(&mut store, "B", "v2", 9);
    add(&mut store, "C", "v3", 7);
    assert_eq!(store.get_latest_vote_timestamp().unwrap(), 9);
}

#[test]
fn sorted_by_timestamp_ties_keep_store_order() {
    let (_pool, mut store) = fresh_store();
    add(&mut store, "A", "v1", 5);
    add(&mut store, "B", "v2", 3);
    add(&mut store, "C", "v3", 3);
    let sorted = store.get_votes_sorted_by_timestamp().unwrap();
    let ids: Vec<u64> = sorted.iter().map(|v| v.id).collect();
    assert_eq!(ids, vec![2, 3, 1]);
}

#[test]
fn reopening_restores_persisted_votes() {
    let pool = RegionPool::new();
    let mut store = VoteStore::open(pool.region(0), pool.region(1)).expect("open");
    add(&mut store, "A", "v1", 1);
    add(&mut store, "B\u{e9}ta", "v2", 2);
    drop(store);
    let store = VoteStore::open(pool.region(0), pool.region(1)).expect("reopen");
    assert_eq!(store.total_votes().unwrap(), 2);
    let all = store.get_votes().unwrap();
    assert_eq!(all[0].candidate, "A");
    assert_eq!(all[1].candidate, "B\u{e9}ta");
    assert_eq!(all[1].voter, "v2");
    assert_eq!(all[1].id, 2);
}

#[test]
fn insert_overwrites_record_under_its_id() {
    let (_pool, mut store) = fresh_store();
    let v = add(&mut store, "A", "v1", 1);
    let replacement = Vote {
        id: v.id,
        candidate: "Z".to_string(),
        voter: "v1".to_string(),
        timestamp: 9,
    };
    store.insert(&replacement);
    let all = store.get_votes().unwrap();
    assert_eq!(all.len(), 1);
    assert_eq!(all[0].candidate, "Z");
    assert_eq!(all[0].timestamp, 9);
}

#[test]
fn last_issued_follows_the_counter() {
    let (_pool, mut store) = fresh_store();
    assert_eq!(store.last_issued(), 0);
    add(&mut store, "A", "v1", 1);
    assert_eq!(store.last_issued(), 1);
    store.clear_votes().unwrap();
    assert_eq!(store.last_issued(), 1);
}

#[test]
fn restore_accepts_exact_encodings_only() {
    let vote = Vote {
        id: 1,
        candidate: "A".to_string(),
        voter: "v1".to_string(),
        timestamp: 5,
    };
    let bytes = vote.encode();
    let good = vec![(1u64, bytes.clone())];
    assert!(Store::<Vote>::restore(&good, 1).is_some());
    let wrong_key = vec![(2u64, bytes.clone())];
    assert!(Store::<Vote>::restore(&wrong_key, 5).is_none());
    let above_counter = vec![(1u64, bytes.clone())];
    assert!(Store::<Vote>::restore(&above_counter, 0).is_none());
    let garbage = vec![(1u64, vec![1u8, 2, 3])];
    assert!(Store::<Vote>::restore(&garbage, 1).is_none());
    let truncated = vec![(1u64, bytes[..bytes.len() - 1].to_vec())];
    assert!(Store::<Vote>::restore(&truncated, 1).is_none());
}
