use pathfinder::constants::ZERO;
use pathfinder::univ2pool::{RawTokenV2, RawUniV2Pool, TokenV2, UniV2Pool};

fn word(x: u128) -> [u64; 4] {
    [x as u64, (x >> 64) as u64, 0, 0]
}

fn addr(last: u8) -> [u8; 20] {
    let mut a = [0u8; 20];
    a[19] = last;
    a
}

fn pair(reserve0: u128, reserve1: u128) -> UniV2Pool {
    UniV2Pool {
        id: addr(9),
        token0: TokenV2 { id: addr(1), reserves: word(reserve0) },
        token1: TokenV2 { id: addr(2), reserves: word(reserve1) },
    }
}

#[test]
fn get_amount_out_takes_token1_reserve_in_for_zf1() {
    // reserveIn = reserve1, reserveOut = reserve0 for a zero-for-one swap
    let pool = pair(1_000_000_000_000_000_000_000, 500_000_000_000_000_000_000);
    assert_eq!(pool.get_amount_out(true, word(1_000_000_000)), word(1_993_999_999));
    assert_eq!(pool.get_amount_out(false, word(1_000_000_000)), word(498_499_999));
}

#[test]
fn get_amount_out_large_trade() {
    let pool = pair(3_000_000_000_000_000_000_000_000, 2_000_000_000_000_000_000_000);
    assert_eq!(
        pool.get_amount_out(true, word(1_000_000_000_000_000_000)),
        word(1_494_754_864_699_947_076_382)
    );
}

#[test]
fn get_amount_out_is_zero_where_the_router_reverts() {
    let pool = pair(1_000_000, 1_000_000);
    assert_eq!(pool.get_amount_out(true, ZERO), ZERO);
    let empty = pair(0, 1_000_000);
    assert_eq!(empty.get_amount_out(true, word(1000)), ZERO);
    assert_eq!(empty.get_amount_out(false, word(1000)), ZERO);
    let huge = [u64::MAX, u64::MAX, u64::MAX, u64::MAX >> 4];
    assert_eq!(pool.get_amount_out(true, huge), ZERO);
}

#[test]
fn get_amount_out_stays_below_the_reserve() {
    // token0 holds 1000, token1 holds 10^12; a huge input of token0 ...
    let pool = pair(1_000, 1_000_000_000_000);
    let out = pool.get_amount_out(false, word(1_000_000_000_000_000_000));
    assert_eq!(out, word(999_999_999_999));
    // ... and a huge input of token1 draw on reserves just below what they hold
    let out = pool.get_amount_out(true, word(1_000_000_000_000_000_000));
    assert_eq!(out, word(999));
}

#[test]
fn get_amount_out_grows_with_the_input() {
    let pool = pair(10_000_000_000_000_000_000_000, 10_000_000_000_000_000_000_000);
    let small = pool.get_amount_out(true, word(1_000_000_000_000_000));
    let large = pool.get_amount_out(true, word(10_000_000_000_000_000));
    assert_eq!(small, word(996_999_900_599_109));
    assert_eq!(large, word(9_969_990_059_919_910));
}

#[test]
fn token_out_and_zf1() {
    let pool = pair(1, 1);
    assert_eq!(*pool.token_out(&addr(1)), addr(2));
    assert_eq!(*pool.token_out(&addr(2)), addr(1));
    assert_eq!(*pool.token_out(&addr(7)), addr(1));
    assert!(pool.zf1(&addr(1)));
    assert!(!pool.zf1(&addr(2)));
}

#[test]
fn amount_out_call_names_pool_and_direction() {
    let pool = pair(1, 1);
    let call = pool.amount_out_call(&addr(2), word(55));
    assert_eq!(call.pool, addr(9));
    assert!(!call.zero_for_one);
    assert_eq!(call.amount, word(55));
}

#[test]
fn from_univ2pool_reads_addresses() {
    let raw = RawUniV2Pool {
        id: "0xB4e16d0168e52d35CaCD2c6185b44281Ec28C9Dc".to_string(),
        token0: RawTokenV2 { id: "a0b86991c6218b36c1d19d4a2e9eb0ce3606eb48".to_string() },
        token1: RawTokenV2 { id: "0xC02aaA39b223FE8D0A0e5C4F27eAD9083C756Cc2".to_string() },
    };
    let pool = UniV2Pool::from_univ2pool(raw).unwrap();
    assert_eq!(pool.id[0], 0xb4);
    assert_eq!(pool.id[19], 0xdc);
    assert_eq!(pool.token0.id[0], 0xa0);
    assert_eq!(pool.token1.id[19], 0xc2);
    assert_eq!(pool.token0.reserves, ZERO);
    assert_eq!(pool.token1.reserves, ZERO);
}

#[test]
fn from_univ2pool_refuses_a_bad_address() {
    let raw = RawUniV2Pool {
        id: "0x1234".to_string(),
        token0: RawTokenV2 { id: "a0b86991c6218b36c1d19d4a2e9eb0ce3606eb48".to_string() },
        token1: RawTokenV2 { id: "a0b86991c6218b36c1d19d4a2e9eb0ce3606eb48".to_string() },
    };
    assert!(UniV2Pool::from_univ2pool(raw).is_none());
}

#[test]
fn from_pairs_and_set_reserves() {
    let pairs = vec![[addr(1), addr(2), addr(10)], [addr(3), addr(4), addr(11)]];
    let (mut pools, addrs) = UniV2Pool::from_pairs(&pairs);
    assert_eq!(addrs, vec![addr(10), addr(11)]);
    assert_eq!(pools[1].token0.id, addr(3));
    assert_eq!(pools[1].token1.id, addr(4));
    assert_eq!(pools[0].token0.reserves, ZERO);
    let reserves = vec![[word(5), word(6), word(7)]];
    UniV2Pool::set_reserves(&mut pools, &reserves);
    assert_eq!(pools[0].token0.reserves, word(5));
    assert_eq!(pools[0].token1.reserves, word(6));
    assert_eq!(pools[1].token0.reserves, ZERO);
}

#[test]
fn from_univ2pool_reads_blanks_between_digits() {
    let raw = RawUniV2Pool {
        id: "0xB4e16d01 68e52d35\tCaCD2c61\n85b44281Ec28C9Dc ".to_string(),
        token0: RawTokenV2 { id: "a0b86991c6218b36c1d19d4a2e9eb0ce3606eb48".to_string() },
        token1: RawTokenV2 { id: "0XC02aaA39b223FE8D0A0e5C4F27eAD9083C756Cc2".to_string() },
    };
    // blanks between digits are skipped; only a lower-case `0x` is a prefix
    assert!(UniV2Pool::from_univ2pool(raw).is_none());
    let raw = RawUniV2Pool {
        id: "0xB4e16d01 68e52d35\tCaCD2c61\n85b44281Ec28C9Dc ".to_string(),
        token0: RawTokenV2 { id: "a0b86991c6218b36c1d19d4a2e9eb0ce3606eb48".to_string() },
        token1: RawTokenV2 { id: "C02aaA39b223FE8D0A0e5C4F27eAD9083C756Cc2".to_string() },
    };
    let pool = UniV2Pool::from_univ2pool(raw).unwrap();
    assert_eq!(pool.id[4], 0x68);
    assert_eq!(pool.id[19], 0xdc);
    assert_eq!(pool.token1.id[0], 0xc0);
}
