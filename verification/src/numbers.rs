//! Little-endian integers and decimal numerals.
use vstd::prelude::*;

verus! {

/// `256` to the power `n`: how many values `n` bytes can hold.
pub open spec fn pow256(n: nat) -> nat
    decreases n,
{
    if n == 0 {
        1
    } else {
        256 * pow256((n - 1) as nat)
    }
}

/// The unsigned number whose digits in base 256, lowest first, are `bytes`.
pub open spec fn le_nat(bytes: Seq<u8>) -> nat
    decreases bytes.len(),
{
    if bytes.len() == 0 {
        0
    } else {
        bytes[0] as nat + 256 * le_nat(bytes.drop_first())
    }
}

/// The two's complement number that `bytes`, lowest first, stand for.
pub open spec fn le_int(bytes: Seq<u8>) -> int {
    if bytes.len() > 0 && bytes.last() >= 128 {
        le_nat(bytes) - pow256(bytes.len())
    } else {
        le_nat(bytes) as int
    }
}

/// An unsigned number stays below the number of values its bytes can hold,
/// and reaches half of it exactly when the highest bit is set.
pub proof fn lemma_le_nat_bound(bytes: Seq<u8>)
    ensures
        le_nat(bytes) < pow256(bytes.len()),
        bytes.len() > 0 ==> (bytes.last() >= 128 <==> 2 * le_nat(bytes) >= pow256(bytes.len())),
    decreases bytes.len(),
{
    if bytes.len() > 0 {
        let rest = bytes.drop_first();
        lemma_le_nat_bound(rest);
        if rest.len() > 0 {
            assert(rest.last() == bytes.last());
            lemma_pow256_even(rest.len());
        }
    }
}

proof fn lemma_pow256_even(n: nat)
    requires
        n > 0,
    ensures
        pow256(n) % 256 == 0,
{
}

proof fn lemma_pow256_mono(m: nat, n: nat)
    requires
        m <= n,
    ensures
        pow256(m) <= pow256(n),
    decreases n,
{
    if m < n {
        lemma_pow256_mono(m, (n - 1) as nat);
    }
}

proof fn lemma_pow256_16()
    ensures
        pow256(16) == u128::MAX + 1,
{
    reveal_with_fuel(pow256, 17);
}

/// Reads at most sixteen bytes as an unsigned little-endian integer.
pub fn le_uint(bytes: &[u8]) -> (r: u128)
    requires
        bytes@.len() <= 16,
    ensures
        r == le_nat(bytes@),
{
    let mut acc: u128 = 0;
    let mut i: usize = bytes.len();
    assert(bytes@.skip(i as int) =~= Seq::<u8>::empty());
    while i > 0
        invariant
            i <= bytes@.len() <= 16,
            acc == le_nat(bytes@.skip(i as int)),
        decreases i,
    {
        i = i - 1;
        proof {
            let tail = bytes@.skip(i as int);
            assert(tail.drop_first() =~= bytes@.skip(i + 1));
            lemma_le_nat_bound(tail);
            lemma_pow256_mono(tail.len(), 16);
            lemma_pow256_16();
        }
        acc = acc * 256 + bytes[i] as u128;
    }
    assert(bytes@.skip(0) =~= bytes@);
    acc
}

/// Reads at most sixteen bytes as a two's complement little-endian integer.
pub fn le_sint(bytes: &[u8]) -> (r: i128)
    requires
        bytes@.len() <= 16,
    ensures
        r == le_int(bytes@),
{
    let n = bytes.len();
    let u = le_uint(bytes);
    proof {
        lemma_le_nat_bound(bytes@);
        lemma_pow256_mono(bytes@.len(), 16);
        lemma_pow256_16();
    }
    if n == 0 || bytes[n - 1] < 128 {
        u as i128
    } else {
        let mut top: u128 = 0;
        let mut i: usize = 0;
        while i < n
            invariant
                i <= n <= 16,
                top == pow256(i as nat) - 1,
            decreases n - i,
        {
            i = i + 1;
            proof {
                lemma_pow256_mono(i as nat, 16);
                lemma_pow256_16();
            }
            top = top * 256 + 255;
        }
        -((top - u) as i128) - 1
    }
}

/// The decimal digit for `d`.
pub open spec fn digit_char(d: nat) -> char {
    ('0' as nat + d) as char
}

/// The decimal numeral of `n`, without leading zeros.
pub open spec fn decimal(n: nat) -> Seq<char>
    decreases n,
{
    if n < 10 {
        seq![digit_char(n)]
    } else {
        decimal(n / 10).push(digit_char(n % 10))
    }
}

fn digit_text(d: usize) -> (r: &'static str)
    requires
        d < 10,
    ensures
        r@ == seq![digit_char(d as nat)],
{
    proof {
        reveal_strlit("0");
        reveal_strlit("1");
        reveal_strlit("2");
        reveal_strlit("3");
        reveal_strlit("4");
        reveal_strlit("5");
        reveal_strlit("6");
        reveal_strlit("7");
        reveal_strlit("8");
        reveal_strlit("9");
    }
    match d {
        0 => "0",
        1 => "1",
        2 => "2",
        3 => "3",
        4 => "4",
        5 => "5",
        6 => "6",
        7 => "7",
        8 => "8",
        _ => "9",
    }
}

/// Writes `n` as a decimal numeral.
pub fn decimal_text(n: usize) -> (r: String)
    ensures
        r@ == decimal(n as nat),
    decreases n,
{
    if n < 10 {
        String::from_str(digit_text(n))
    } else {
        let mut text = decimal_text(n / 10);
        text.append(digit_text(n % 10));
        assert(text@ =~= decimal((n / 10) as nat).push(digit_char((n % 10) as nat)));
        text
    }
}

/// Bytes together hold as many values as their parts do, taken together.
pub proof fn lemma_pow256_sum(m: nat, n: nat)
    ensures
        pow256(0) == 1,
        pow256(1) == 256,
        pow256(m + n) == pow256(m) * pow256(n),
    decreases n,
{
    reveal_with_fuel(pow256, 2);
    if n > 0 {
        let k = (n - 1) as nat;
        lemma_pow256_sum(m, k);
        assert(256 * (pow256(m) * pow256(k)) == pow256(m) * (256 * pow256(k)))
            by (nonlinear_arith);
    } else {
        assert(pow256(m) * 1 == pow256(m));
    }
}

/// Each further byte counts 256 times as much as the one before it.
pub proof fn lemma_le_nat_push(bytes: Seq<u8>, b: u8)
    ensures
        le_nat(Seq::empty()) == 0,
        le_nat(bytes.push(b)) == le_nat(bytes) + b * pow256(bytes.len()),
    decreases bytes.len(),
{
    let longer = bytes.push(b);
    if bytes.len() > 0 {
        let rest = bytes.drop_first();
        lemma_le_nat_push(rest, b);
        assert(longer.drop_first() =~= rest.push(b));
        assert(256 * (b * pow256(rest.len())) == b * (256 * pow256(rest.len())))
            by (nonlinear_arith);
    } else {
        assert(longer.drop_first() =~= Seq::empty());
        assert(b * 1 == b);
    }
}

/// A signed number lies in the range that its bytes can hold, half of it below
/// zero, and differs from the unsigned one by nothing or by the whole range.
pub proof fn lemma_le_int_range(bytes: Seq<u8>)
    requires
        bytes.len() > 0,
    ensures
        -pow256(bytes.len()) <= 2 * le_int(bytes) < pow256(bytes.len()),
        le_int(bytes) == le_nat(bytes) || le_int(bytes) == le_nat(bytes) - pow256(bytes.len()),
{
    lemma_le_nat_bound(bytes);
}

/// A further digit is put at the end of a numeral; that of a number below ten is
/// its digit alone.
pub proof fn lemma_decimal_push(n: nat, d: nat)
    requires
        d < 10,
    ensures
        decimal(10 * n + d) == (if n == 0 {
            seq!["0123456789"@[d as int]]
        } else {
            decimal(n).push("0123456789"@[d as int])
        }),
{
    reveal_strlit("0123456789");
    assert((10 * n + d) / 10 == n && (10 * n + d) % 10 == d);
    assert("0123456789"@[d as int] == digit_char(d));
}

} // verus!
