//! Fixed numbers of the Uniswap contracts that the pools come from.
use vstd::prelude::*;
use crate::types::{Address, U256};

verus! {

/// The largest square-root price a V3 swap may move to (one below
/// `TickMath.MAX_SQRT_RATIO`), as little-endian limbs.
pub const MAX_SQRT_PRICE: U256 = [6743328256752651557, 17280870778742802505, 4294805859, 0];

/// The smallest square-root price a V3 swap may move to (one above
/// `TickMath.MIN_SQRT_RATIO`).
pub const MIN_SQRT_PRICE: U256 = [4295128740, 0, 0, 0];

/// The word zero; a swap that cannot be made yields it.
pub const ZERO: U256 = [0, 0, 0, 0];

/// The most swaps a searched cycle may hold.
pub const MAXLEN: usize = 3;

/// The Uniswap V2 factory.
pub const UNIV2_FAC: Address = [0x5c, 0x69, 0xbe, 0xe7, 0x01, 0xef, 0x81, 0x4a, 0x2b, 0x6a, 0x3e, 0xdd, 0x4b, 0x16, 0x52, 0xcb, 0x9c, 0xc5, 0xaa, 0x6f];

/// The SushiSwap factory.
pub const SUSHI_FAC: Address = [0xc0, 0xae, 0xe4, 0x78, 0xe3, 0x65, 0x8e, 0x26, 0x10, 0xc5, 0xf7, 0xa4, 0xa2, 0xe1, 0x77, 0x7c, 0xe9, 0xe4, 0xf2, 0xac];

/// The ShibaSwap factory.
pub const SHIBA_FAC: Address = [0x11, 0x59, 0x34, 0x13, 0x19, 0x16, 0xc8, 0xb2, 0x77, 0xdd, 0x01, 0x0e, 0xe0, 0x2d, 0xe3, 0x63, 0xc0, 0x9d, 0x03, 0x7c];

} // verus!
