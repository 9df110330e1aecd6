use sim_core::market::{assign_binding, spawn_binding};
use sim_core::records::MarketBinding;

/// An integer that orders as `f32::total_cmp` orders `d`.
fn order_key(d: f32) -> i32 {
    let mut bits = d.to_bits() as i32;
    bits ^= (((bits >> 31) as u32) >> 1) as i32;
    bits
}

/// The binding of a citizen at `pos` among markets at their positions.
fn bind(pos: (f32, f32), markets: &[(u32, (f32, f32))]) -> Option<MarketBinding> {
    let ranked: Vec<(u32, i32)> = markets
        .iter()
        .map(|(id, (x, y))| {
            let dx = pos.0 - x;
            let dy = pos.1 - y;
            (*id, order_key(dx * dx + dy * dy))
        })
        .collect();
    assign_binding(&ranked)
}

#[test]
fn home_is_nearest_work_is_second_nearest() {
    let markets = vec![(9001u32, (2.0f32, 3.0f32)), (9002u32, (13.0, 3.0)), (9004u32, (72.0, 40.0))];
    let b = bind((3.0, 3.0), &markets).unwrap();
    assert_eq!(b.home_market, 9001);
    assert_eq!(b.work_market, 9002);
}

#[test]
fn single_market_makes_work_equal_home() {
    let markets = vec![(9001u32, (2.0f32, 3.0f32))];
    let b = bind((100.0, 100.0), &markets).unwrap();
    assert_eq!(b.home_market, 9001);
    assert_eq!(b.work_market, 9001);
}

#[test]
fn empty_markets_is_none() {
    assert!(bind((0.0, 0.0), &[]).is_none());
}

#[test]
fn deterministic_tie_break_by_id() {
    let markets = vec![(9002u32, (0.0f32, 1.0f32)), (9001u32, (0.0, -1.0))];
    let b = bind((0.0, 0.0), &markets).unwrap();
    assert_eq!(b.home_market, 9001, "equal distance → lower id wins");
    assert_eq!(b.work_market, 9002);
}

#[test]
fn deterministic_work_tie_break_by_id() {
    let markets = vec![(9001u32, (0.0f32, 0.0f32)), (9003u32, (10.0, 0.0)), (9002u32, (-10.0, 0.0))];
    let b = bind((0.0, 5.0), &markets).unwrap();
    assert_eq!(b.home_market, 9001);
    assert_eq!(b.work_market, 9002, "equal distance for work candidates → lower id");
}

#[test]
fn ranking_uses_keys_then_ids() {
    assert_eq!(assign_binding(&[(5, 10), (3, 10), (4, -2)]), Some(MarketBinding { home_market: 4, work_market: 3 }));
    assert_eq!(assign_binding(&[(7, 1), (7, 0)]), Some(MarketBinding { home_market: 7, work_market: 7 }));
}

#[test]
fn spawn_keeps_a_set_binding_and_ranks_an_unset_one() {
    let candidates = [(9001, 5), (9002, 3)];
    // A record that carries its markets keeps them.
    assert_eq!(spawn_binding(9007, 9008, &candidates), (9007, 9008));
    // An unset one is ranked: nearest home, next nearest work.
    assert_eq!(spawn_binding(0, 0, &candidates), (9002, 9001));
    // No market to rank: the record's own stays.
    assert_eq!(spawn_binding(0, 0, &[]), (0, 0));
}
