//! Base58 text of public keys.
use crate::numbers::pow256;
use vstd::prelude::*;

verus! {

/// The symbol for `d` in the Bitcoin base58 alphabet: `1`-`9`, then `A`-`Z`
/// without `I` and `O`, then `a`-`z` without `l`.
pub open spec fn base58_symbol(d: nat) -> char {
    if d < 9 {
        ('1' as nat + d) as char
    } else if d < 17 {
        ('A' as nat + d - 9) as char
    } else if d < 22 {
        ('J' as nat + d - 17) as char
    } else if d < 33 {
        ('P' as nat + d - 22) as char
    } else if d < 44 {
        ('a' as nat + d - 33) as char
    } else {
        ('m' as nat + d - 44) as char
    }
}

/// The unsigned number whose digits in base 256, highest first, are `bytes`.
pub open spec fn be_nat(bytes: Seq<u8>) -> nat
    decreases bytes.len(),
{
    if bytes.len() == 0 {
        0
    } else {
        be_nat(bytes.drop_last()) * 256 + bytes.last() as nat
    }
}

/// The base58 numeral of `n`, highest digit first; nothing for zero.
pub open spec fn base58_digits(n: nat) -> Seq<char>
    decreases n,
{
    if n == 0 {
        Seq::empty()
    } else {
        base58_digits(n / 58).push(base58_symbol(n % 58))
    }
}

/// How many zero bytes `bytes` starts with.
pub open spec fn leading_zeros(bytes: Seq<u8>) -> nat
    decreases bytes.len(),
{
    if bytes.len() > 0 && bytes[0] == 0 {
        1 + leading_zeros(bytes.drop_first())
    } else {
        0
    }
}

/// The base58 text of `bytes`: a `1` for each leading zero byte, then the
/// base58 numeral of the big-endian number that the bytes form.
pub open spec fn base58_text(bytes: Seq<u8>) -> Seq<char> {
    Seq::new(leading_zeros(bytes), |i: int| '1') + base58_digits(be_nat(bytes))
}

/// Calls `bs58::encode` with its default alphabet, Bitcoin's, and without a
/// checksum, and takes the result as a string. The crate reserves half as many
/// characters again as there are bytes, so that many have to be addressable.
#[verifier::external_body]
fn base58_encode(bytes: &[u8]) -> (r: String)
    requires
        bytes@.len() + (bytes@.len() + 1) / 2 <= isize::MAX,
    ensures
        r@ == base58_text(bytes@),
{
    bs58::encode(bytes).into_string()
}

/// Base58-encodes the raw bytes of a public key.
pub fn pubkey_to_bs58(bytes: &[u8]) -> (r: String)
    requires
        bytes@.len() + (bytes@.len() + 1) / 2 <= isize::MAX,
    ensures
        r@ == base58_text(bytes@),
{
    base58_encode(bytes)
}

/// The number that a base58 text stands for, leading `1`s counting as zero
/// digits.
spec fn base58_value(text: Seq<char>) -> nat
    decreases text.len(),
{
    if text.len() == 0 {
        0
    } else {
        base58_value(text.drop_last()) * 58 + base58_digit(text.last())
    }
}

spec fn base58_digit(c: char) -> nat {
    choose|d: nat| d < 58 && base58_symbol(d) == c
}

proof fn lemma_base58_digit(d: nat)
    requires
        d < 58,
    ensures
        base58_digit(base58_symbol(d)) == d,
{
    let e = base58_digit(base58_symbol(d));
    assert(e < 58 && base58_symbol(e) == base58_symbol(d));
}

proof fn lemma_base58_value(zeros: nat, n: nat)
    ensures
        base58_value(Seq::new(zeros, |i: int| '1') + base58_digits(n)) == n,
    decreases zeros + n,
{
    let text = Seq::new(zeros, |i: int| '1') + base58_digits(n);
    if n > 0 {
        lemma_base58_value(zeros, n / 58);
        lemma_base58_digit(n % 58);
        assert(text.drop_last() =~= Seq::new(zeros, |i: int| '1') + base58_digits(n / 58));
    } else if zeros > 0 {
        lemma_base58_value((zeros - 1) as nat, 0);
        assert(base58_symbol(0) == '1');
        lemma_base58_digit(0);
        assert(text.drop_last() =~= Seq::new((zeros - 1) as nat, |i: int| '1') + base58_digits(0));
    }
}

/// `58` to the power `n`: how many numbers have numerals of at most `n` digits.
pub open spec fn pow58(n: nat) -> nat
    decreases n,
{
    if n == 0 {
        1
    } else {
        58 * pow58((n - 1) as nat)
    }
}

proof fn lemma_pow58_mono(m: nat, n: nat)
    requires
        m <= n,
    ensures
        pow58(m) <= pow58(n),
    decreases n,
{
    if m < n {
        lemma_pow58_mono(m, (n - 1) as nat);
    }
}

proof fn lemma_pow58_pow256(n: nat)
    ensures
        0 < pow58(n) <= pow256(n),
    decreases n,
{
    if n > 0 {
        lemma_pow58_pow256((n - 1) as nat);
    }
}

/// A numeral has the least number of digits that its number fits in, and starts
/// with no `1`, which is the digit for zero.
proof fn lemma_base58_digits(n: nat)
    ensures
        n < pow58(base58_digits(n).len()),
        n > 0 ==> {
            &&& base58_digits(n).len() > 0
            &&& pow58((base58_digits(n).len() - 1) as nat) <= n
            &&& base58_digits(n)[0] != '1'
        },
    decreases n,
{
    if n > 0 {
        lemma_base58_digits(n / 58);
        if n < 58 {
            assert(base58_digits(n / 58) =~= Seq::<char>::empty());
            assert(base58_symbol(n % 58) != '1');
        } else {
            assert(base58_digits(n)[0] == base58_digits(n / 58)[0]);
        }
    }
}

/// What is left of `bytes` without its leading zero bytes.
pub open spec fn significant(bytes: Seq<u8>) -> Seq<u8> {
    bytes.skip(leading_zeros(bytes) as int)
}

proof fn lemma_be_nat_zero_first(bytes: Seq<u8>)
    requires
        bytes.len() > 0,
        bytes[0] == 0,
    ensures
        be_nat(bytes) == be_nat(bytes.drop_first()),
    decreases bytes.len(),
{
    if bytes.len() > 1 {
        lemma_be_nat_zero_first(bytes.drop_last());
        assert(bytes.drop_last().drop_first() =~= bytes.drop_first().drop_last());
    } else {
        assert(bytes.drop_first() =~= bytes.drop_last());
    }
}

/// Leading zero bytes do not count in a number.
proof fn lemma_significant(bytes: Seq<u8>)
    ensures
        leading_zeros(bytes) <= bytes.len(),
        forall|i: int| 0 <= i < leading_zeros(bytes) ==> bytes[i] == 0,
        significant(bytes).len() > 0 ==> significant(bytes)[0] != 0,
        be_nat(significant(bytes)) == be_nat(bytes),
    decreases bytes.len(),
{
    if bytes.len() > 0 && bytes[0] == 0 {
        let rest = bytes.drop_first();
        lemma_significant(rest);
        lemma_be_nat_zero_first(bytes);
        assert(significant(bytes) =~= significant(rest));
        assert forall|i: int| 0 <= i < leading_zeros(bytes) implies bytes[i] == 0 by {
            if i > 0 {
                assert(rest[i - 1] == bytes[i]);
            }
        }
    } else {
        assert(significant(bytes) =~= bytes);
    }
}

/// A number without leading zeros needs all its bytes.
proof fn lemma_be_nat_bounds(bytes: Seq<u8>)
    ensures
        be_nat(bytes) < pow256(bytes.len()),
        bytes.len() > 0 && bytes[0] != 0 ==> pow256((bytes.len() - 1) as nat) <= be_nat(bytes),
    decreases bytes.len(),
{
    if bytes.len() > 0 {
        lemma_be_nat_bounds(bytes.drop_last());
        if bytes.len() > 1 {
            assert(bytes.drop_last()[0] == bytes[0]);
        }
    }
}

proof fn lemma_be_nat_injective(x: Seq<u8>, y: Seq<u8>)
    requires
        x.len() > 0 ==> x[0] != 0,
        y.len() > 0 ==> y[0] != 0,
        be_nat(x) == be_nat(y),
    ensures
        x == y,
    decreases x.len(),
{
    lemma_be_nat_bounds(x);
    lemma_be_nat_bounds(y);
    lemma_pow256_positive((x.len() - 1) as nat);
    lemma_pow256_positive((y.len() - 1) as nat);
    if x.len() > 0 && y.len() > 0 {
        lemma_be_nat_injective(x.drop_last(), y.drop_last());
        assert(x =~= x.drop_last().push(x.last()));
        assert(y =~= y.drop_last().push(y.last()));
    } else {
        assert(x =~= y);
    }
}

proof fn lemma_pow256_positive(n: nat)
    ensures
        pow256(n) > 0,
    decreases n,
{
    if n > 0 {
        lemma_pow256_positive((n - 1) as nat);
    }
}

/// How many `1`s `text` starts with.
pub open spec fn leading_ones(text: Seq<char>) -> nat
    decreases text.len(),
{
    if text.len() > 0 && text[0] == '1' {
        1 + leading_ones(text.drop_first())
    } else {
        0
    }
}

proof fn lemma_leading_ones(n: nat, rest: Seq<char>)
    requires
        rest.len() > 0 ==> rest[0] != '1',
    ensures
        leading_ones(Seq::new(n, |i: int| '1') + rest) == n,
    decreases n,
{
    let text = Seq::new(n, |i: int| '1') + rest;
    if n > 0 {
        let m = (n - 1) as nat;
        lemma_leading_ones(m, rest);
        assert(text.drop_first() =~= Seq::new(m, |i: int| '1') + rest);
    } else {
        assert(text =~= rest);
    }
}

/// A base58 text starts with exactly as many `1`s as the bytes start with zero
/// bytes.
pub proof fn lemma_base58_leading_ones(bytes: Seq<u8>)
    ensures
        leading_ones(base58_text(bytes)) == leading_zeros(bytes),
{
    let n = be_nat(bytes);
    lemma_base58_digits(n);
    lemma_leading_ones(leading_zeros(bytes), base58_digits(n));
}

/// A base58 text stands for one byte string: different bytes, of whatever
/// lengths, have different texts.
pub proof fn lemma_base58_injective(x: Seq<u8>, y: Seq<u8>)
    requires
        base58_text(x) == base58_text(y),
    ensures
        x == y,
{
    lemma_base58_leading_ones(x);
    lemma_base58_leading_ones(y);
    lemma_base58_value(leading_zeros(x), be_nat(x));
    lemma_base58_value(leading_zeros(y), be_nat(y));
    lemma_significant(x);
    lemma_significant(y);
    lemma_be_nat_injective(significant(x), significant(y));
    let n = leading_zeros(x) as int;
    assert(x =~= x.take(n) + significant(x));
    assert(y =~= y.take(n) + significant(y));
    assert(x.take(n) =~= y.take(n));
}

/// The bytes whose base58 text is `text`, if there are any.
pub open spec fn base58_bytes(text: Seq<char>) -> Option<Seq<u8>> {
    if exists|bytes: Seq<u8>| base58_text(bytes) == text {
        Some(choose|bytes: Seq<u8>| base58_text(bytes) == text)
    } else {
        None
    }
}

/// The bytes that the text of `bytes` stands for are `bytes`.
pub proof fn lemma_base58_round_trip(bytes: Seq<u8>)
    ensures
        base58_bytes(base58_text(bytes)) == Some(bytes),
{
    let text = base58_text(bytes);
    let found = choose|b: Seq<u8>| base58_text(b) == text;
    lemma_base58_injective(found, bytes);
}

/// A base58 text is at least as long as the bytes that it stands for.
pub proof fn lemma_base58_len(bytes: Seq<u8>)
    ensures
        base58_text(bytes).len() >= bytes.len(),
{
    let n = be_nat(bytes);
    let rest = significant(bytes);
    let len = base58_digits(n).len();
    lemma_significant(bytes);
    lemma_base58_digits(n);
    if rest.len() > 0 && len < rest.len() {
        lemma_be_nat_bounds(rest);
        lemma_pow58_mono(len, (rest.len() - 1) as nat);
        lemma_pow58_pow256((rest.len() - 1) as nat);
    }
}

proof fn lemma_powers_grow(m: nat, n: nat)
    requires
        pow256(m) <= pow58(n),
    ensures
        pow256(m + 8) <= pow58(n + 11),
{
    reveal_with_fuel(pow256, 9);
    reveal_with_fuel(pow58, 12);
}

proof fn lemma_powers_of_a_key(zeros: nat)
    requires
        zeros <= 32,
    ensures
        pow256((32 - zeros) as nat) <= pow58((44 - zeros) as nat),
    decreases zeros,
{
    if zeros == 0 {
        lemma_powers_grow(0, 0);
        lemma_powers_grow(8, 11);
        lemma_powers_grow(16, 22);
        lemma_powers_grow(24, 33);
    } else {
        lemma_powers_of_a_key((zeros - 1) as nat);
        lemma_pow58_pow256((44 - zeros) as nat);
    }
}

/// The text of a public key, which is 32 bytes long, has 32 to 44 characters.
pub proof fn lemma_base58_key_len(key: Seq<u8>)
    requires
        key.len() == 32,
    ensures
        32 <= base58_text(key).len() <= 44,
{
    let n = be_nat(key);
    let zeros = leading_zeros(key);
    let len = base58_digits(n).len();
    lemma_base58_len(key);
    lemma_significant(key);
    lemma_be_nat_bounds(significant(key));
    lemma_powers_of_a_key(zeros);
    lemma_base58_digits(n);
    if len > 44 - zeros {
        lemma_pow58_mono((44 - zeros) as nat, (len - 1) as nat);
    }
}

/// Zero bytes have as many `1`s as text as there are bytes.
pub proof fn lemma_base58_of_zeros(n: nat)
    ensures
        base58_text(Seq::new(n, |i: int| 0u8)) == Seq::new(n, |i: int| '1'),
{
    let zeros = Seq::new(n, |i: int| 0u8);
    lemma_zeros(n);
    assert(base58_digits(0) =~= Seq::<char>::empty());
    assert(base58_text(zeros) =~= Seq::new(n, |i: int| '1'));
}

proof fn lemma_zeros(n: nat)
    ensures
        leading_zeros(Seq::new(n, |i: int| 0u8)) == n,
        be_nat(Seq::new(n, |i: int| 0u8)) == 0,
    decreases n,
{
    if n > 0 {
        let m = (n - 1) as nat;
        lemma_zeros(m);
        assert(Seq::new(n, |i: int| 0u8).drop_first() =~= Seq::new(m, |i: int| 0u8));
        assert(Seq::new(n, |i: int| 0u8).drop_last() =~= Seq::new(m, |i: int| 0u8));
    }
}

/// The symbols of base58 stand in this order.
pub proof fn lemma_base58_alphabet(d: nat)
    requires
        d < 58,
    ensures
        base58_symbol(d)
            == "123456789ABCDEFGHJKLMNPQRSTUVWXYZabcdefghijkmnopqrstuvwxyz"@[d as int],
{
    reveal_strlit("123456789ABCDEFGHJKLMNPQRSTUVWXYZabcdefghijkmnopqrstuvwxyz");
}

/// A further digit is put at the end of a numeral, unless the number is zero; a
/// further byte counts one where the bytes before it count 256.
pub proof fn lemma_base58_push(n: nat, d: nat, bytes: Seq<u8>, b: u8)
    requires
        d < 58,
    ensures
        base58_digits(0) == Seq::<char>::empty(),
        n + d > 0 ==> base58_digits(58 * n + d) == base58_digits(n).push(base58_symbol(d)),
        be_nat(Seq::empty()) == 0,
        be_nat(bytes.push(b)) == 256 * be_nat(bytes) + b,
{
    assert((58 * n + d) / 58 == n && (58 * n + d) % 58 == d);
    assert(bytes.push(b).drop_last() =~= bytes);
}

/// The text of bytes that start with no zero byte is the numeral of the number
/// that they form; a zero byte in front puts a `1` in front.
pub proof fn lemma_base58_front(bytes: Seq<u8>)
    ensures
        bytes.len() == 0 || bytes[0] != 0 ==> base58_text(bytes) == base58_digits(be_nat(bytes)),
        base58_text(seq![0u8] + bytes) == seq!['1'] + base58_text(bytes),
{
    let longer = seq![0u8] + bytes;
    assert(longer.drop_first() =~= bytes);
    lemma_be_nat_zero_first(longer);
    assert(base58_text(longer) =~= seq!['1'] + base58_text(bytes));
    if bytes.len() == 0 || bytes[0] != 0 {
        assert(base58_text(bytes) =~= base58_digits(be_nat(bytes)));
    }
}

} // verus!
