use ethers::types::{I256, U256};
use pathfinder::constants::{MAX_SQRT_PRICE, MIN_SQRT_PRICE};
use pathfinder::univ3pool::{sqrt_price_limit, RawTick, RawToken, RawUniV3Pool, UniV3Pool};

fn signed(x: i64) -> [u64; 4] {
    I256::from(x).into_raw().0
}

fn word(x: u64) -> [u64; 4] {
    [x, 0, 0, 0]
}

fn raw_token(id: &str, symbol: &str, decimals: &str) -> RawToken {
    RawToken { id: id.to_string(), symbol: symbol.to_string(), decimals: decimals.to_string() }
}

fn raw_pool(ticks: Vec<RawTick>) -> RawUniV3Pool {
    RawUniV3Pool {
        id: "0x88e6A0c2dDD26FEEb64F039a2c41296FcB3f5640".to_string(),
        token0: raw_token("0xA0b86991c6218b36c1d19D4a2e9Eb0cE3606eB48", "USDC", "6"),
        token1: raw_token("0xC02aaA39b223FE8D0A0e5C4F27eAD9083C756Cc2", "WETH", "18"),
        fee_tier: "500".to_string(),
        tick: "-201000".to_string(),
        ticks,
    }
}

#[test]
fn sqrt_price_limit_bounds() {
    assert_eq!(sqrt_price_limit(true), MIN_SQRT_PRICE);
    assert_eq!(sqrt_price_limit(false), MAX_SQRT_PRICE);
    assert_eq!(U256(MIN_SQRT_PRICE), U256::from_dec_str("4295128740").unwrap());
    assert_eq!(
        U256(MAX_SQRT_PRICE),
        U256::from_dec_str("1461446703485210103287273052203988822378723970341").unwrap()
    );
}

#[test]
fn from_univ3pool_reads_fields() {
    let ticks = vec![
        RawTick { tick_idx: "-887270".to_string(), liquidity_net: "10".to_string() },
        RawTick { tick_idx: "+60".to_string(), liquidity_net: "0xff".to_string() },
    ];
    let pool = UniV3Pool::from_univ3pool(raw_pool(ticks)).unwrap();
    assert_eq!(pool.id[0], 0x88);
    assert_eq!(pool.token0.symbol, "USDC");
    assert_eq!(pool.token0.decimals, 6);
    assert_eq!(pool.token1.decimals, 18);
    assert_eq!(pool.fee, 500);
    assert_eq!(pool.tick, -201000);
    assert_eq!(pool.ticks.len(), 2);
    assert_eq!(pool.ticks[0].tick_idx, -887270);
    // the liquidity is read as hex, as the word type reads text
    assert_eq!(pool.ticks[0].liquidity_net, word(16));
    assert_eq!(pool.ticks[1].tick_idx, 60);
    assert_eq!(pool.ticks[1].liquidity_net, word(255));
}

#[test]
fn from_univ3pool_refuses_unreadable_fields() {
    let ticks = vec![RawTick { tick_idx: "1.5".to_string(), liquidity_net: "1".to_string() }];
    assert!(UniV3Pool::from_univ3pool(raw_pool(ticks)).is_none());
    let mut bad_fee = raw_pool(vec![]);
    bad_fee.fee_tier = "-500".to_string();
    assert!(UniV3Pool::from_univ3pool(bad_fee).is_none());
    let mut bad_decimals = raw_pool(vec![]);
    bad_decimals.token1.decimals = "".to_string();
    assert!(UniV3Pool::from_univ3pool(bad_decimals).is_none());
    let ticks = vec![RawTick { tick_idx: "1".to_string(), liquidity_net: "-5".to_string() }];
    assert!(UniV3Pool::from_univ3pool(raw_pool(ticks)).is_none());
}

#[test]
fn univ3_token_out_and_zf1() {
    let pool = UniV3Pool::from_univ3pool(raw_pool(vec![])).unwrap();
    let usdc = pool.token0.id;
    let weth = pool.token1.id;
    assert_eq!(*pool.token_out(&usdc), weth);
    assert_eq!(*pool.token_out(&weth), usdc);
    assert!(pool.zf1(&usdc));
    assert!(!pool.zf1(&weth));
    let copy = pool.clone();
    assert_eq!(copy.id, pool.id);
    assert_eq!(copy.token1.symbol, "WETH");
}

#[test]
fn exact_input_call_and_reply() {
    let pool = UniV3Pool::from_univ3pool(raw_pool(vec![])).unwrap();
    let usdc = pool.token0.id;
    let call = pool.amount_out_call(&usdc, word(1_000_000));
    assert!(call.zero_for_one);
    assert!(!call.exact_output);
    assert_eq!(call.amount, word(1_000_000));
    assert_eq!(call.sqrt_price_limit, MIN_SQRT_PRICE);
    // the pool takes 1_000_000 of token0 and pays 400 of token1
    assert_eq!(call.amount_from_deltas(signed(1_000_000), signed(-400)), word(400));
    // the other way round the first delta is negative and is the answer
    assert_eq!(call.amount_from_deltas(signed(-400), signed(1_000_000)), word(400));
}

#[test]
fn exact_output_call_negates_the_amount() {
    let pool = UniV3Pool::from_univ3pool(raw_pool(vec![])).unwrap();
    let call = pool.amount_in_for_out_call(false, word(400));
    assert!(!call.zero_for_one);
    assert!(call.exact_output);
    assert_eq!(call.amount, signed(-400));
    assert_eq!(call.sqrt_price_limit, MAX_SQRT_PRICE);
    // the pool takes 1_000_000 of token0 for the 400 out
    assert_eq!(call.amount_from_deltas(signed(1_000_000), signed(-400)), word(1_000_000));
    assert_eq!(call.amount_from_deltas(signed(-400), signed(7)), word(7));
}

#[test]
fn from_univ3pool_reads_liquidity_as_hex() {
    let ticks = vec![
        RawTick { tick_idx: "0".to_string(), liquidity_net: "".to_string() },
        RawTick { tick_idx: "1".to_string(), liquidity_net: "0x".to_string() },
        RawTick { tick_idx: "2".to_string(), liquidity_net: "abc".to_string() },
    ];
    let pool = UniV3Pool::from_univ3pool(raw_pool(ticks)).unwrap();
    assert_eq!(pool.ticks[0].liquidity_net, word(0));
    assert_eq!(pool.ticks[1].liquidity_net, word(0));
    assert_eq!(pool.ticks[2].liquidity_net, word(0xabc));
    let too_long = "1".repeat(65);
    let ticks = vec![RawTick { tick_idx: "0".to_string(), liquidity_net: too_long }];
    assert!(UniV3Pool::from_univ3pool(raw_pool(ticks)).is_none());
    let ticks = vec![RawTick { tick_idx: "0".to_string(), liquidity_net: "1 0".to_string() }];
    assert!(UniV3Pool::from_univ3pool(raw_pool(ticks)).is_none());
}
