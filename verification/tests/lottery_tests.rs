use record_store::lottery::Lottery;
use record_store::lottery::LotteryError;
use record_store::storage::RegionPool;

fn fresh_lottery() -> (RegionPool, Lottery) {
    let pool = RegionPool::new();
    let lottery = Lottery::open(
        pool.region(0),
        pool.region(1),
        pool.region(2),
        pool.region(3),
    )
    .expect("fresh regions open");
    (pool, lottery)
}

#[test]
fn buying_a_valid_ticket_assigns_id_one() {
    let (_pool, mut lottery) = fresh_lottery();
    let t = lottery
        .buy_lottery_ticket("alice".to_string(), vec![1, 2, 3, 4, 5, 6], 100)
        .expect("valid ticket accepted");
    assert_eq!(t.id, 1);
    assert_eq!(t.owner, "alice");
    assert_eq!(t.numbers, vec![1, 2, 3, 4, 5, 6]);
    assert_eq!(t.created_at, 100);
    assert_eq!(t.updated_at, None);
}

#[test]
fn a_zero_number_is_rejected() {
    let (_pool, mut lottery) = fresh_lottery();
    let r = lottery.buy_lottery_ticket("alice".to_string(), vec![0, 2, 3, 4, 5, 6], 100);
    assert_eq!(r.unwrap_err(), LotteryError::InvalidNumbers);
}

#[test]
fn five_numbers_are_rejected() {
    let (_pool, mut lottery) = fresh_lottery();
    let r = lottery.buy_lottery_ticket("alice".to_string(), vec![1, 2, 3, 4, 5], 100);
    assert_eq!(r.unwrap_err(), LotteryError::InvalidNumbers);
}

#[test]
fn a_repeated_number_is_rejected() {
    let (_pool, mut lottery) = fresh_lottery();
    let r = lottery.buy_lottery_ticket("alice".to_string(), vec![1, 1, 2, 3, 4, 5], 100);
    assert_eq!(r.unwrap_err(), LotteryError::InvalidNumbers);
    let r = lottery.conduct_lottery_draw(vec![7, 7, 8, 9, 10, 11], 100);
    assert_eq!(r.unwrap_err(), LotteryError::InvalidNumbers);
}

#[test]
fn a_number_above_forty_nine_is_rejected() {
    let (_pool, mut lottery) = fresh_lottery();
    let r = lottery.buy_lottery_ticket("alice".to_string(), vec![1, 2, 3, 4, 5, 50], 100);
    assert_eq!(r.unwrap_err(), LotteryError::InvalidNumbers);
}

#[test]
fn buy_then_check_returns_equal_ticket() {
    let (_pool, mut lottery) = fresh_lottery();
    let t = lottery
        .buy_lottery_ticket("bob".to_string(), vec![7, 8, 9, 10, 11, 12], 55)
        .expect("valid ticket accepted");
    let got = lottery.check_lottery_ticket(t.id).expect("ticket found");
    assert_eq!(got.id, t.id);
    assert_eq!(got.owner, t.owner);
    assert_eq!(got.numbers, t.numbers);
    assert_eq!(got.created_at, t.created_at);
    assert_eq!(got.updated_at, t.updated_at);
}

#[test]
fn checking_a_missing_ticket_fails() {
    let (_pool, lottery) = fresh_lottery();
    let r = lottery.check_lottery_ticket(3);
    assert_eq!(r.unwrap_err(), LotteryError::NotFound);
}

#[test]
fn conducting_a_draw_starts_without_participants() {
    let (_pool, mut lottery) = fresh_lottery();
    let d = lottery
        .conduct_lottery_draw(vec![11, 12, 13, 14, 15, 16], 200)
        .expect("valid draw accepted");
    assert_eq!(d.id, 1);
    assert_eq!(d.winning_numbers, vec![11, 12, 13, 14, 15, 16]);
    assert_eq!(d.draw_time, 200);
    assert!(d.participants.is_empty());
}

#[test]
fn invalid_winning_numbers_are_rejected() {
    let (_pool, mut lottery) = fresh_lottery();
    let r = lottery.conduct_lottery_draw(vec![11, 12, 13, 14, 15, 0], 200);
    assert_eq!(r.unwrap_err(), LotteryError::InvalidNumbers);
}

#[test]
fn participating_adds_the_ticket_owner() {
    let (_pool, mut lottery) = fresh_lottery();
    let t = lottery
        .buy_lottery_ticket("carol".to_string(), vec![1, 2, 3, 4, 5, 6], 10)
        .unwrap();
    let d = lottery
        .conduct_lottery_draw(vec![7, 8, 9, 10, 11, 12], 20)
        .unwrap();
    let updated = lottery
        .participate_in_lottery_draw(t.id, d.id)
        .expect("both exist");
    assert_eq!(updated.id, d.id);
    assert_eq!(updated.draw_time, 20);
    assert_eq!(updated.participants, vec!["carol".to_string()]);
    let draws = lottery.get_all_lottery_draws().unwrap();
    assert_eq!(draws.len(), 1);
    assert_eq!(draws[0].participants, vec!["carol".to_string()]);
}

#[test]
fn participating_without_ticket_or_draw_fails() {
    let (_pool, mut lottery) = fresh_lottery();
    let r = lottery.participate_in_lottery_draw(1, 1);
    assert_eq!(r.unwrap_err(), LotteryError::NotFound);
    lottery
        .buy_lottery_ticket("dave".to_string(), vec![1, 2, 3, 4, 5, 6], 10)
        .unwrap();
    let r = lottery.participate_in_lottery_draw(1, 9);
    assert_eq!(r.unwrap_err(), LotteryError::NotFound);
}

#[test]
fn listing_an_empty_store_fails_not_found() {
    let (_pool, lottery) = fresh_lottery();
    assert_eq!(
        lottery.get_all_lottery_tickets().unwrap_err(),
        LotteryError::NotFound
    );
    assert_eq!(
        lottery.get_all_lottery_draws().unwrap_err(),
        LotteryError::NotFound
    );
}

#[test]
fn tickets_and_draws_count_ids_independently() {
    let (_pool, mut lottery) = fresh_lottery();
    let t1 = lottery
        .buy_lottery_ticket("a".to_string(), vec![1, 2, 3, 4, 5, 6], 1)
        .unwrap();
    let t2 = lottery
        .buy_lottery_ticket("b".to_string(), vec![1, 2, 3, 4, 5, 6], 2)
        .unwrap();
    let d1 = lottery
        .conduct_lottery_draw(vec![1, 2, 3, 4, 5, 6], 3)
        .unwrap();
    assert_eq!(t1.id, 1);
    assert_eq!(t2.id, 2);
    assert_eq!(d1.id, 1);
    assert_eq!(lottery.last_ticket_id(), 2);
    assert_eq!(lottery.last_draw_id(), 1);
}

#[test]
fn reopening_restores_tickets_and_draws() {
    let pool = RegionPool::new();
    let mut lottery = Lottery::open(
        pool.region(0),
        pool.region(1),
        pool.region(2),
        pool.region(3),
    )
    .expect("open");
    let t = lottery
        .buy_lottery_ticket("erin".to_string(), vec![4, 8, 15, 16, 23, 42], 77)
        .unwrap();
    let d = lottery
        .conduct_lottery_draw(vec![1, 2, 3, 4, 5, 6], 88)
        .unwrap();
    lottery.participate_in_lottery_draw(t.id, d.id).unwrap();
    drop(lottery);
    let lottery = Lottery::open(
        pool.region(0),
        pool.region(1),
        pool.region(2),
        pool.region(3),
    )
    .expect("reopen");
    let got = lottery.check_lottery_ticket(t.id).expect("ticket kept");
    assert_eq!(got.owner, "erin");
    assert_eq!(got.numbers, vec![4, 8, 15, 16, 23, 42]);
    let draws = lottery.get_all_lottery_draws().unwrap();
    assert_eq!(draws[0].participants, vec!["erin".to_string()]);
    assert_eq!(draws[0].draw_time, 88);
}
