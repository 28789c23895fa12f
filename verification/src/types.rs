//! Plain-value models of the Ethereum word types that the pools carry.
use vstd::prelude::*;

verus! {

/// A 20-byte account address, big endian, as `ethers::types::Address` holds it.
pub type Address = [u8; 20];

/// An unsigned 256-bit word as four little-endian 64-bit limbs, as
/// `ethers::types::U256` holds it.
pub type U256 = [u64; 4];

/// 2^64.
pub open spec fn limb_base() -> nat {
    0x1_0000_0000_0000_0000
}

/// 2^256, one more than the largest word.
pub open spec fn word_modulus() -> nat {
    limb_base() * (limb_base() * (limb_base() * limb_base()))
}

/// The number that a word denotes.
pub open spec fn value(x: U256) -> nat {
    (x[0] + limb_base() * (x[1] + limb_base() * (x[2] + limb_base() * x[3]))) as nat
}

/// Numbers in base 2^64 compare by their higher part first, then by their
/// lowest digit.
proof fn lemma_digit_order(da: int, ra: int, db: int, rb: int)
    requires
        0 <= da < limb_base(),
        0 <= db < limb_base(),
        0 <= ra,
        0 <= rb,
    ensures
        ra < rb ==> da + limb_base() * ra < db + limb_base() * rb,
        ra == rb ==> (da + limb_base() * ra < db + limb_base() * rb <==> da < db),
        ra == rb ==> (da + limb_base() * ra == db + limb_base() * rb <==> da == db),
        da + limb_base() * ra == db + limb_base() * rb ==> ra == rb,
{
    let base = limb_base() as int;
    assert(ra < rb ==> da + base * ra < db + base * rb) by (nonlinear_arith)
        requires
            0 <= da < base,
            0 <= db,
    {
        if ra < rb {
            assert(base * rb - base * ra == base * (rb - ra));
            assert(base * (rb - ra) >= base);
        }
    }
    assert(da + base * ra == db + base * rb ==> ra == rb) by (nonlinear_arith)
        requires
            0 <= da < base,
            0 <= db < base,
    {
        if da + base * ra == db + base * rb && ra != rb {
            if ra < rb {
                assert(base * (rb - ra) >= base);
            } else {
                assert(base * (ra - rb) >= base);
            }
        }
    }
}

/// The value of a word, by its lowest limb and the value of the rest.
proof fn lemma_value_limbs(x: U256)
    ensures
        value(x) == x[0] + limb_base() * (x[1] + limb_base() * (x[2] + limb_base() * x[3])),
        x[1] + limb_base() * (x[2] + limb_base() * x[3]) >= 0,
        x[2] + limb_base() * x[3] >= 0,
{
    assert(x[2] + limb_base() * x[3] >= 0) by (nonlinear_arith);
    assert(x[1] + limb_base() * (x[2] + limb_base() * x[3]) >= 0) by (nonlinear_arith)
        requires
            x[2] + limb_base() * x[3] >= 0,
    ;
}

/// Two words denote the same number exactly when their limbs agree, and
/// compare by their limbs from the highest down.
proof fn lemma_value_order(a: U256, b: U256)
    ensures
        value(a) == value(b) <==> (a[0] == b[0] && a[1] == b[1] && a[2] == b[2] && a[3] == b[3]),
        value(a) < value(b) <==> (if a[3] != b[3] {
            a[3] < b[3]
        } else if a[2] != b[2] {
            a[2] < b[2]
        } else if a[1] != b[1] {
            a[1] < b[1]
        } else {
            a[0] < b[0]
        }),
{
    lemma_value_limbs(a);
    lemma_value_limbs(b);
    let a2 = a[2] + limb_base() * a[3];
    let b2 = b[2] + limb_base() * b[3];
    let a1 = a[1] + limb_base() * a2;
    let b1 = b[1] + limb_base() * b2;
    lemma_digit_order(a[2] as int, a[3] as int, b[2] as int, b[3] as int);
    lemma_digit_order(a[1] as int, a2, b[1] as int, b2);
    lemma_digit_order(a[0] as int, a1, b[0] as int, b1);
    lemma_digit_order(b[2] as int, b[3] as int, a[2] as int, a[3] as int);
    lemma_digit_order(b[1] as int, b2, a[1] as int, a2);
    lemma_digit_order(b[0] as int, b1, a[0] as int, a1);
}

/// Whether `a` denotes a smaller number than `b`.
pub fn word_lt(a: &U256, b: &U256) -> (r: bool)
    ensures
        r == (value(*a) < value(*b)),
{
    proof {
        lemma_value_order(*a, *b);
    }
    if a[3] != b[3] {
        a[3] < b[3]
    } else if a[2] != b[2] {
        a[2] < b[2]
    } else if a[1] != b[1] {
        a[1] < b[1]
    } else {
        a[0] < b[0]
    }
}

/// Whether a word denotes zero.
pub fn word_is_zero(x: &U256) -> (r: bool)
    ensures
        r == (value(*x) == 0),
{
    x[0] == 0 && x[1] == 0 && x[2] == 0 && x[3] == 0
}

/// Whether two words denote the same number.
pub fn word_eq(a: &U256, b: &U256) -> (r: bool)
    ensures
        r == (value(*a) == value(*b)),
        r == (*a == *b),
{
    let r = a[0] == b[0] && a[1] == b[1] && a[2] == b[2] && a[3] == b[3];
    proof {
        lemma_value_order(*a, *b);
        if r {
            assert(a@ =~= b@);
            assert(*a =~= *b);
        }
    }
    r
}

/// The word that denotes a 64-bit number.
pub fn word_from_u64(x: u64) -> (r: U256)
    ensures
        value(r) == x,
{
    [x, 0, 0, 0]
}

/// Whether two addresses are the same.
pub fn same_address(a: &Address, b: &Address) -> (r: bool)
    ensures
        r == (*a == *b),
{
    let mut i: usize = 0;
    while i < 20
        invariant
            0 <= i <= 20,
            forall|j: int| 0 <= j < i ==> a[j] == b[j],
        decreases 20 - i,
    {
        if a[i] != b[i] {
            return false;
        }
        i = i + 1;
    }
    assert(*a =~= *b);
    true
}

/// Calls `ethers::types::U256::checked_mul`. Claimed: the result is the
/// product of the two numbers when it is below 2^256, and `None` otherwise.
#[verifier::external_body]
pub(crate) fn word_checked_mul(a: U256, b: U256) -> (r: Option<U256>)
    ensures
        match r {
            Some(c) => value(a) * value(b) < word_modulus() && value(c) == value(a) * value(b),
            None => value(a) * value(b) >= word_modulus(),
        },
{
    ethers::types::U256(a).checked_mul(ethers::types::U256(b)).map(|c| c.0)
}

/// Calls `ethers::types::U256::checked_add`. Claimed: the result is the
/// sum of the two numbers when it is below 2^256, and `None` otherwise.
#[verifier::external_body]
pub(crate) fn word_checked_add(a: U256, b: U256) -> (r: Option<U256>)
    ensures
        match r {
            Some(c) => value(a) + value(b) < word_modulus() && value(c) == value(a) + value(b),
            None => value(a) + value(b) >= word_modulus(),
        },
{
    ethers::types::U256(a).checked_add(ethers::types::U256(b)).map(|c| c.0)
}

/// Calls the division operator of `ethers::types::U256`, which panics on a
/// zero divisor. Claimed: the result is the floor of the quotient.
#[verifier::external_body]
pub(crate) fn word_div(a: U256, b: U256) -> (r: U256)
    requires
        value(b) != 0,
    ensures
        value(r) == value(a) / value(b),
{
    (ethers::types::U256(a) / ethers::types::U256(b)).0
}

/// Whether a character is a hex digit, in either case.
pub open spec fn is_hex_digit(c: char) -> bool {
    ('0' <= c && c <= '9') || ('a' <= c && c <= 'f') || ('A' <= c && c <= 'F')
}

/// The number that a hex digit stands for.
pub open spec fn hex_value(c: char) -> nat {
    if '0' <= c && c <= '9' {
        (c as nat - '0' as nat) as nat
    } else if 'a' <= c && c <= 'f' {
        (c as nat - 'a' as nat + 10) as nat
    } else {
        (c as nat - 'A' as nat + 10) as nat
    }
}

/// Whether a character is one of the four blanks that a hash's hex text may
/// hold between its digits: space, carriage return, line feed and tab.
pub open spec fn is_blank(c: char) -> bool {
    c == ' ' || c == '\r' || c == '\n' || c == '\t'
}

/// A text without its `0x` prefix, where it has one.
pub open spec fn hex_body(text: Seq<char>) -> Seq<char> {
    if text.len() >= 2 && text[0] == '0' && text[1] == 'x' {
        text.skip(2)
    } else {
        text
    }
}

/// The bytes that a run of hex digits spells, two digits a byte, the first
/// digit of each pair the high half.
pub open spec fn hex_bytes(digits: Seq<char>) -> Seq<u8> {
    Seq::new(
        digits.len() / 2,
        |i: int| (16 * hex_value(digits[2 * i]) + hex_value(digits[2 * i + 1])) as u8,
    )
}

/// What `ethers::types::Address::from_str` reads from a text: after an
/// optional `0x` prefix, hex digits and blanks only, with exactly 40 digits,
/// which spell the 20 bytes in order.
pub open spec fn parsed_address(text: Seq<char>) -> Option<Address> {
    let body = hex_body(text);
    let digits = body.filter(|c: char| !is_blank(c));
    if (forall|i: int| 0 <= i < body.len() ==> is_hex_digit(#[trigger] body[i]) || is_blank(body[i]))
        && digits.len() == 40 {
        Some(choose|a: Address| a@ == hex_bytes(digits))
    } else {
        None
    }
}

/// Calls `ethers::types::Address::from_str` (fixed-hash's hex reading).
/// Claimed: it reads the text as `parsed_address` says.
#[verifier::external_body]
pub(crate) fn parse_address(text: &str) -> (r: Option<Address>)
    ensures
        r == parsed_address(text@),
{
    text.parse::<ethers::types::Address>().ok().map(|a| a.0)
}

/// The number that a run of hex digits spells.
pub open spec fn hex_number(digits: Seq<char>) -> nat
    decreases digits.len(),
{
    if digits.len() == 0 {
        0
    } else {
        hex_number(digits.drop_last()) * 16 + hex_value(digits.last())
    }
}

/// What `ethers::types::U256::from_str` reads from a text: after an optional
/// `0x` prefix, at most 64 hex digits and nothing else, read as a hex number
/// (no digits read as zero).
pub open spec fn parsed_word(text: Seq<char>) -> Option<U256> {
    let body = hex_body(text);
    if body.len() <= 64 && forall|i: int| 0 <= i < body.len() ==> is_hex_digit(#[trigger] body[i]) {
        Some(choose|w: U256| value(w) == hex_number(body))
    } else {
        None
    }
}

/// Calls `ethers::types::U256::from_str` (uint's hex reading). Claimed: it
/// reads the text as `parsed_word` says.
#[verifier::external_body]
pub(crate) fn parse_word(text: &str) -> (r: Option<U256>)
    ensures
        r == parsed_word(text@),
{
    text.parse::<ethers::types::U256>().ok().map(|w| w.0)
}

/// Whether a character is an ASCII decimal digit.
pub open spec fn is_digit(c: char) -> bool {
    '0' <= c && c <= '9'
}

/// The number that a string of decimal digits spells.
pub open spec fn digits_value(s: Seq<char>) -> nat
    decreases s.len(),
{
    if s.len() == 0 {
        0
    } else {
        digits_value(s.drop_last()) * 10 + (s.last() as nat - '0' as nat) as nat
    }
}

/// Whether a text is a non-empty run of decimal digits.
pub open spec fn is_digit_run(s: Seq<char>) -> bool {
    s.len() > 0 && forall|i: int| 0 <= i < s.len() ==> is_digit(#[trigger] s[i])
}

/// What `str::parse::<u64>` reads, as std documents it: an optional `+`
/// followed by decimal digits only, of a value that fits.
pub open spec fn decimal_u64(s: Seq<char>) -> Option<u64> {
    let body = if s.len() > 0 && s[0] == '+' {
        s.drop_first()
    } else {
        s
    };
    if is_digit_run(body) && digits_value(body) <= u64::MAX {
        Some(digits_value(body) as u64)
    } else {
        None
    }
}

/// What `str::parse::<i64>` reads, as std documents it: an optional `+` or
/// `-` followed by decimal digits only, of a value that fits.
pub open spec fn decimal_i64(s: Seq<char>) -> Option<i64> {
    if s.len() > 0 && s[0] == '-' {
        let body = s.drop_first();
        if is_digit_run(body) && digits_value(body) <= 0x8000_0000_0000_0000 {
            Some((0 - digits_value(body)) as i64)
        } else {
            None
        }
    } else {
        let body = if s.len() > 0 && s[0] == '+' {
            s.drop_first()
        } else {
            s
        };
        if is_digit_run(body) && digits_value(body) <= i64::MAX {
            Some(digits_value(body) as i64)
        } else {
            None
        }
    }
}

/// Calls `str::parse::<u64>`. Claimed: it reads what std documents for it.
#[verifier::external_body]
pub(crate) fn parse_u64(text: &str) -> (r: Option<u64>)
    ensures
        r == decimal_u64(text@),
{
    text.parse::<u64>().ok()
}

/// Calls `str::parse::<i64>`. Claimed: it reads what std documents for it.
#[verifier::external_body]
pub(crate) fn parse_i64(text: &str) -> (r: Option<i64>)
    ensures
        r == decimal_i64(text@),
{
    text.parse::<i64>().ok()
}

/// 2^255, the size of the non-negative half of the signed words.
pub open spec fn half_modulus() -> nat {
    limb_base() * (limb_base() * (limb_base() * 0x8000_0000_0000_0000))
}

/// The number that a word denotes as a two's complement signed word, as
/// `ethers::types::I256` reads its limbs.
pub open spec fn signed_value(x: U256) -> int {
    if x[3] < 0x8000_0000_0000_0000 {
        value(x) as int
    } else {
        value(x) - word_modulus()
    }
}

/// The absolute value of an integer.
pub open spec fn abs(x: int) -> nat {
    if x < 0 {
        (0 - x) as nat
    } else {
        x as nat
    }
}

/// Whether a signed word is above zero (`I256::is_positive`).
pub fn signed_is_positive(x: &U256) -> (r: bool)
    ensures
        r == (signed_value(*x) > 0),
{
    x[3] < 0x8000_0000_0000_0000 && !word_is_zero(x)
}

/// Calls `ethers::types::I256::unsigned_abs`. Claimed: the result is the
/// absolute value of the signed word (2^255 for the least one).
#[verifier::external_body]
pub(crate) fn signed_unsigned_abs(x: U256) -> (r: U256)
    ensures
        value(r) == abs(signed_value(x)),
{
    ethers::types::I256::from_raw(ethers::types::U256(x)).unsigned_abs().0
}

/// Calls the product of `ethers::types::I256` with `I256::minus_one()`,
/// which overflows only for the least signed word. Claimed: the result is the
/// negated signed word.
#[verifier::external_body]
pub(crate) fn signed_negate(x: U256) -> (r: U256)
    requires
        signed_value(x) != -(half_modulus() as int),
    ensures
        signed_value(r) == -signed_value(x),
{
    (ethers::types::I256::from_raw(ethers::types::U256(x)) * ethers::types::I256::minus_one()).into_raw().0
}

} // verus!
