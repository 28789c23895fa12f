use ethers::types::I256;
use pathfinder::calculator::{amount_in_for_an_output, amount_out_for_an_input};
use pathfinder::pool::{Pool, SwapCall};
use pathfinder::univ2pool::{TokenV2, UniV2Pool};
use pathfinder::univ3pool::{Token, UniV3Pool};

fn word(x: u64) -> [u64; 4] {
    [x, 0, 0, 0]
}

fn addr(last: u8) -> [u8; 20] {
    let mut a = [0u8; 20];
    a[19] = last;
    a
}

fn v2() -> Pool {
    Pool::V2(UniV2Pool {
        id: addr(10),
        token0: TokenV2 { id: addr(1), reserves: word(100) },
        token1: TokenV2 { id: addr(2), reserves: word(100) },
    })
}

fn v3() -> Pool {
    Pool::V3(UniV3Pool {
        id: addr(11),
        token0: Token { id: addr(1), symbol: "A".to_string(), decimals: 18 },
        token1: Token { id: addr(2), symbol: "B".to_string(), decimals: 18 },
        fee: 3000,
        tick: 0,
        ticks: vec![],
    })
}

#[test]
fn quote_for_an_input() {
    match amount_out_for_an_input(&v2(), false, word(5)) {
        SwapCall::V2(c) => {
            assert_eq!(c.pool, addr(10));
            assert!(!c.zero_for_one);
            assert_eq!(c.amount, word(5));
        }
        SwapCall::V3(_) => panic!("wrong kind"),
    }
    match amount_out_for_an_input(&v3(), true, word(5)) {
        SwapCall::V3(c) => {
            assert_eq!(c.pool, addr(11));
            assert!(c.zero_for_one);
            assert!(!c.exact_output);
            assert_eq!(c.amount, word(5));
        }
        SwapCall::V2(_) => panic!("wrong kind"),
    }
}

#[test]
fn quote_for_an_output() {
    match amount_in_for_an_output(&v2(), true, word(5)) {
        SwapCall::V2(c) => {
            assert!(c.zero_for_one);
            assert_eq!(c.amount, word(5));
        }
        SwapCall::V3(_) => panic!("wrong kind"),
    }
    match amount_in_for_an_output(&v3(), false, word(5)) {
        SwapCall::V3(c) => {
            assert!(!c.zero_for_one);
            assert!(c.exact_output);
            assert_eq!(c.amount, I256::from(-5i64).into_raw().0);
        }
        SwapCall::V2(_) => panic!("wrong kind"),
    }
}
