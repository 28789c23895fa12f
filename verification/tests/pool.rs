use pathfinder::constants::ZERO;
use pathfinder::pool::{Pool, PoolSave, SwapCall};
use pathfinder::univ2pool::{TokenV2, UniV2Pool};
use pathfinder::univ3pool::{Token, UniV3Pool};

fn word(x: u64) -> [u64; 4] {
    [x, 0, 0, 0]
}

fn addr(last: u8) -> [u8; 20] {
    let mut a = [0u8; 20];
    a[19] = last;
    a
}

fn v2(id: u8, t0: u8, t1: u8, r0: u64, r1: u64) -> UniV2Pool {
    UniV2Pool {
        id: addr(id),
        token0: TokenV2 { id: addr(t0), reserves: word(r0) },
        token1: TokenV2 { id: addr(t1), reserves: word(r1) },
    }
}

fn v3(id: u8, t0: u8, t1: u8) -> UniV3Pool {
    UniV3Pool {
        id: addr(id),
        token0: Token { id: addr(t0), symbol: "A".to_string(), decimals: 18 },
        token1: Token { id: addr(t1), symbol: "B".to_string(), decimals: 6 },
        fee: 3000,
        tick: 0,
        ticks: vec![],
    }
}

#[test]
fn pool_accessors() {
    let a = Pool::V2(v2(10, 1, 2, 5, 5));
    let b = Pool::V3(v3(11, 3, 4));
    assert_eq!(*a.token0(), addr(1));
    assert_eq!(*a.token1(), addr(2));
    assert_eq!(*a.addr(), addr(10));
    assert_eq!(*b.token0(), addr(3));
    assert_eq!(*b.token1(), addr(4));
    assert_eq!(*b.addr(), addr(11));
    assert_eq!(*a.token_out(&addr(1)), addr(2));
    assert_eq!(*b.token_out(&addr(4)), addr(3));
}

#[test]
fn token_out_round_trip() {
    let p = Pool::V2(v2(10, 1, 2, 5, 5));
    let out = *p.token_out(&addr(2));
    assert_eq!(*p.token_out(&out), addr(2));
}

#[test]
fn pools_are_equal_by_address() {
    let a = Pool::V2(v2(10, 1, 2, 5, 5));
    let b = Pool::V3(v3(10, 7, 8));
    let c = Pool::V2(v2(12, 1, 2, 5, 5));
    assert!(a == b);
    assert!(a != c);
    let d = b.clone();
    assert!(d == b);
    assert_eq!(*d.token0(), addr(7));
}

#[test]
fn amount_out_call_by_kind() {
    let a = Pool::V2(v2(10, 1, 2, 5, 5));
    match a.amount_out_call(&addr(1), word(9)) {
        SwapCall::V2(c) => {
            assert!(c.zero_for_one);
            assert_eq!(c.pool, addr(10));
        }
        SwapCall::V3(_) => panic!("a V2 pool is priced by the V2 contract"),
    }
    let b = Pool::V3(v3(11, 3, 4));
    match b.amount_out_call(&addr(4), word(9)) {
        SwapCall::V3(c) => {
            assert!(!c.zero_for_one);
            assert!(!c.exact_output);
            assert_eq!(c.amount, word(9));
        }
        SwapCall::V2(_) => panic!("a V3 pool is priced by the V3 contract"),
    }
}

#[test]
fn collect_pools_puts_v3_first() {
    let pools = Pool::collect_pools(vec![v3(20, 1, 2)], vec![v2(21, 1, 3, 0, 0), v2(22, 2, 3, 0, 0)]);
    assert_eq!(pools.len(), 3);
    assert!(matches!(pools[0], Pool::V3(_)));
    assert_eq!(*pools[1].addr(), addr(21));
    assert_eq!(*pools[2].addr(), addr(22));
}

#[test]
fn apply_reserves_updates_v2_only() {
    let mut pools = vec![Pool::V3(v3(20, 1, 2)), Pool::V2(v2(21, 1, 3, 0, 0)), Pool::V2(v2(22, 2, 3, 0, 0))];
    let indices = vec![2, 0, 2];
    let reserves = vec![[word(1), word(2), word(0)], [word(3), word(4), word(0)], [word(5), word(6), word(0)]];
    Pool::apply_reserves(&mut pools, &indices, &reserves);
    match &pools[2] {
        Pool::V2(p) => {
            assert_eq!(p.token0.reserves, word(5));
            assert_eq!(p.token1.reserves, word(6));
        }
        Pool::V3(_) => panic!("kind changed"),
    }
    match &pools[1] {
        Pool::V2(p) => assert_eq!(p.token0.reserves, ZERO),
        Pool::V3(_) => panic!("kind changed"),
    }
    assert!(matches!(pools[0], Pool::V3(_)));
}

#[test]
fn pool_save_holds_pools_and_block() {
    let save = PoolSave { pools: vec![Pool::V2(v2(21, 1, 3, 0, 0))], block: 17_000_000 };
    assert_eq!(save.pools.len(), 1);
    assert_eq!(save.block, 17_000_000);
}
