//! Text: prefixes, surrounding white space, UTF-8 and base64.
use base64::Engine;
use vstd::prelude::*;
use vstd::utf8::{decode_utf8, valid_utf8};

verus! {

/// The characters with the Unicode property `White_Space`.
pub open spec fn is_white_space(c: char) -> bool {
    let u = c as u32;
    ||| 0x09 <= u <= 0x0d
    ||| u == 0x20
    ||| u == 0x85
    ||| u == 0xa0
    ||| u == 0x1680
    ||| 0x2000 <= u <= 0x200a
    ||| u == 0x2028
    ||| u == 0x2029
    ||| u == 0x202f
    ||| u == 0x205f
    ||| u == 0x3000
}

/// `s` without the white space it starts with.
pub open spec fn trim_start(s: Seq<char>) -> Seq<char>
    decreases s.len(),
{
    if s.len() > 0 && is_white_space(s[0]) {
        trim_start(s.drop_first())
    } else {
        s
    }
}

/// `s` without the white space it ends with.
pub open spec fn trim_end(s: Seq<char>) -> Seq<char>
    decreases s.len(),
{
    if s.len() > 0 && is_white_space(s.last()) {
        trim_end(s.drop_last())
    } else {
        s
    }
}

/// `s` without the white space at its two ends.
pub open spec fn trimmed(s: Seq<char>) -> Seq<char> {
    trim_end(trim_start(s))
}

/// `s` is white space throughout.
pub open spec fn is_blank(s: Seq<char>) -> bool {
    forall|i: int| 0 <= i < s.len() ==> is_white_space(#[trigger] s[i])
}

proof fn lemma_trim_start_blank(pad: Seq<char>, s: Seq<char>)
    requires
        is_blank(pad),
    ensures
        trim_start(pad + s) == trim_start(s),
    decreases pad.len(),
{
    if pad.len() > 0 {
        assert((pad + s).drop_first() =~= pad.drop_first() + s);
        lemma_trim_start_blank(pad.drop_first(), s);
    } else {
        assert(pad + s =~= s);
    }
}

proof fn lemma_trim_end_blank(s: Seq<char>, pad: Seq<char>)
    requires
        is_blank(pad),
    ensures
        trim_end(s + pad) == trim_end(s),
    decreases pad.len(),
{
    if pad.len() > 0 {
        assert((s + pad).drop_last() =~= s + pad.drop_last());
        lemma_trim_end_blank(s, pad.drop_last());
    } else {
        assert(s + pad =~= s);
    }
}

proof fn lemma_trim_start_keeps_end(s: Seq<char>, pad: Seq<char>)
    requires
        is_blank(pad),
    ensures
        trim_start(s).len() > 0 ==> trim_start(s + pad) == trim_start(s) + pad,
        trim_start(s).len() == 0 ==> trim_start(s + pad).len() == 0,
    decreases s.len(),
{
    if s.len() == 0 {
        assert(s + pad =~= pad + s);
        lemma_trim_start_blank(pad, s);
    } else if is_white_space(s[0]) {
        assert((s + pad).drop_first() =~= s.drop_first() + pad);
        lemma_trim_start_keeps_end(s.drop_first(), pad);
    }
}

/// White space at the ends of a text makes no difference to what is left when it
/// is taken off.
pub proof fn lemma_trimmed_padding(front: Seq<char>, s: Seq<char>, back: Seq<char>)
    requires
        is_blank(front),
        is_blank(back),
    ensures
        trimmed(front + s + back) == trimmed(s),
{
    assert(front + s + back =~= front + (s + back));
    lemma_trim_start_blank(front, s + back);
    lemma_trim_start_keeps_end(s, back);
    if trim_start(s).len() > 0 {
        lemma_trim_end_blank(trim_start(s), back);
    } else {
        assert(trim_start(s + back) =~= trim_start(s));
    }
}

/// Calls `str::trim`, which takes the characters with the Unicode property
/// `White_Space` off both ends and keeps what is between.
#[verifier::external_body]
pub(crate) fn trim(s: &str) -> (r: &str)
    ensures
        r@ == trimmed(s@),
{
    s.trim()
}

/// What follows `prefix` in `s`, if `s` starts with it.
pub open spec fn after_prefix(s: Seq<char>, prefix: Seq<char>) -> Option<Seq<char>> {
    if prefix.is_prefix_of(s) {
        Some(s.skip(prefix.len() as int))
    } else {
        None
    }
}

/// Calls `str::strip_prefix` with a string as the pattern: the rest of `s`
/// when `s` starts with `prefix`, and `None` when it does not.
#[verifier::external_body]
pub(crate) fn strip_prefix<'a>(s: &'a str, prefix: &str) -> (r: Option<&'a str>)
    ensures
        match r {
            Some(rest) => after_prefix(s@, prefix@) == Some(rest@),
            None => after_prefix(s@, prefix@) is None,
        },
{
    s.strip_prefix(prefix)
}

/// The text in which `std::str::from_utf8` says why bytes are not UTF-8.
pub uninterp spec fn utf8_complaint(bytes: Seq<u8>) -> Seq<char>;

/// Calls `std::str::from_utf8`: the characters that the bytes encode when
/// they are UTF-8, and otherwise the error's text, which depends on the bytes
/// alone.
#[verifier::external_body]
pub(crate) fn utf8_text(bytes: &[u8]) -> (r: Result<String, String>)
    ensures
        match r {
            Ok(text) => valid_utf8(bytes@) && text@ == decode_utf8(bytes@),
            Err(detail) => !valid_utf8(bytes@) && detail@ == utf8_complaint(bytes@),
        },
{
    match std::str::from_utf8(bytes) {
        Ok(text) => Ok(text.to_string()),
        Err(e) => Err(e.to_string()),
    }
}

/// The symbol for `n` in the standard base64 alphabet:
/// `A`-`Z`, `a`-`z`, `0`-`9`, `+`, `/`.
pub open spec fn base64_symbol(n: nat) -> char {
    if n < 26 {
        ('A' as nat + n) as char
    } else if n < 52 {
        ('a' as nat + n - 26) as char
    } else if n < 62 {
        ('0' as nat + n - 52) as char
    } else if n == 62 {
        '+'
    } else {
        '/'
    }
}

/// The padded base64 text of `bytes`: four symbols for every three bytes, six
/// bits each, highest first; a last group of one or two bytes is filled up with
/// zero bits, and its text with `=`.
pub open spec fn base64_text(bytes: Seq<u8>) -> Seq<char>
    decreases bytes.len(),
{
    let a = bytes[0] as nat;
    let b = if bytes.len() > 1 { bytes[1] as nat } else { 0 };
    let c = if bytes.len() > 2 { bytes[2] as nat } else { 0 };
    if bytes.len() == 0 {
        Seq::empty()
    } else {
        seq![
            base64_symbol(a / 4),
            base64_symbol(a % 4 * 16 + b / 16),
            if bytes.len() > 1 { base64_symbol(b % 16 * 4 + c / 64) } else { '=' },
            if bytes.len() > 2 { base64_symbol(c % 64) } else { '=' },
        ] + (if bytes.len() > 3 { base64_text(bytes.skip(3)) } else { Seq::empty() })
    }
}

/// The bytes whose base64 text is `text`, if there are any.
pub open spec fn base64_bytes(text: Seq<char>) -> Option<Seq<u8>> {
    if exists|bytes: Seq<u8>| base64_text(bytes) == text {
        Some(choose|bytes: Seq<u8>| base64_text(bytes) == text)
    } else {
        None
    }
}

/// Calls `decode` of the `base64` crate's engine `STANDARD`, which takes
/// canonical text only: symbols of the standard alphabet, padding where the
/// length asks for it, and no stray bits in the last symbol. It gives the
/// bytes that this text is the encoding of.
#[verifier::external_body]
fn standard_decode(text: &str) -> (r: Option<Vec<u8>>)
    ensures
        match r {
            Some(bytes) => base64_text(bytes@) == text@,
            None => forall|bytes: Seq<u8>| base64_text(bytes) != text@,
        },
{
    base64::engine::general_purpose::STANDARD.decode(text).ok()
}

proof fn lemma_base64_symbol_injective(m: nat, n: nat)
    requires
        m < 64,
        n < 64,
        base64_symbol(m) == base64_symbol(n),
    ensures
        m == n,
{
}

proof fn lemma_base64_symbol_is_no_padding(n: nat)
    requires
        n < 64,
    ensures
        base64_symbol(n) != '=',
{
}

/// A base64 text stands for one sequence of bytes: different bytes have
/// different texts.
pub proof fn lemma_base64_injective(x: Seq<u8>, y: Seq<u8>)
    requires
        base64_text(x) == base64_text(y),
    ensures
        x == y,
    decreases x.len(),
{
    let s = base64_text(x);
    let t = base64_text(y);
    if x.len() == 0 || y.len() == 0 {
        assert(x.len() > 0 ==> s.len() >= 4);
        assert(y.len() > 0 ==> t.len() >= 4);
        assert(x =~= y);
    } else {
        let (a, b, c) = (
            x[0] as nat,
            if x.len() > 1 { x[1] as nat } else { 0 },
            if x.len() > 2 { x[2] as nat } else { 0 },
        );
        let (d, e, f) = (
            y[0] as nat,
            if y.len() > 1 { y[1] as nat } else { 0 },
            if y.len() > 2 { y[2] as nat } else { 0 },
        );
        assert(s[0] == t[0] && s[1] == t[1] && s[2] == t[2] && s[3] == t[3]);
        lemma_base64_symbol_injective(a / 4, d / 4);
        lemma_base64_symbol_injective(a % 4 * 16 + b / 16, d % 4 * 16 + e / 16);
        lemma_base64_symbol_is_no_padding(b % 16 * 4 + c / 64);
        lemma_base64_symbol_is_no_padding(e % 16 * 4 + f / 64);
        lemma_base64_symbol_is_no_padding(c % 64);
        lemma_base64_symbol_is_no_padding(f % 64);
        if x.len() > 1 && y.len() > 1 {
            lemma_base64_symbol_injective(b % 16 * 4 + c / 64, e % 16 * 4 + f / 64);
        }
        if x.len() > 2 && y.len() > 2 {
            lemma_base64_symbol_injective(c % 64, f % 64);
        }
        assert(a == d && b == e && c == f);
        let rest_x = if x.len() > 3 { base64_text(x.skip(3)) } else { Seq::empty() };
        let rest_y = if y.len() > 3 { base64_text(y.skip(3)) } else { Seq::empty() };
        assert(rest_x =~= s.skip(4));
        assert(rest_y =~= t.skip(4));
        if x.len() > 3 {
            assert(rest_x.len() >= 4);
        }
        if y.len() > 3 {
            assert(rest_y.len() >= 4);
        }
        if x.len() > 3 {
            lemma_base64_injective(x.skip(3), y.skip(3));
            assert(x =~= seq![x[0], x[1], x[2]] + x.skip(3));
            assert(y =~= seq![y[0], y[1], y[2]] + y.skip(3));
        } else {
            assert(x =~= y);
        }
    }
}

proof fn lemma_base64_symbol_is_no_white_space(n: nat)
    requires
        n < 64,
    ensures
        !is_white_space(base64_symbol(n)),
{
}

proof fn lemma_base64_text_has_no_white_space(bytes: Seq<u8>)
    ensures
        forall|i: int|
            0 <= i < base64_text(bytes).len() ==> !is_white_space(#[trigger] base64_text(bytes)[i]),
    decreases bytes.len(),
{
    if bytes.len() > 0 {
        let a = bytes[0] as nat;
        let b = if bytes.len() > 1 { bytes[1] as nat } else { 0 };
        let c = if bytes.len() > 2 { bytes[2] as nat } else { 0 };
        lemma_base64_symbol_is_no_white_space(a / 4);
        lemma_base64_symbol_is_no_white_space(a % 4 * 16 + b / 16);
        lemma_base64_symbol_is_no_white_space(b % 16 * 4 + c / 64);
        lemma_base64_symbol_is_no_white_space(c % 64);
        let text = base64_text(bytes);
        if bytes.len() > 3 {
            lemma_base64_text_has_no_white_space(bytes.skip(3));
        }
        assert forall|i: int| 0 <= i < text.len() implies !is_white_space(#[trigger] text[i]) by {
            if i >= 4 {
                assert(text[i] == base64_text(bytes.skip(3))[i - 4]);
            }
        }
    }
}

/// Taking white space off the ends leaves a base64 text as it is.
pub proof fn lemma_base64_text_trimmed(bytes: Seq<u8>)
    ensures
        trimmed(base64_text(bytes)) == base64_text(bytes),
{
    lemma_base64_text_has_no_white_space(bytes);
}

/// The bytes that the text of `bytes` stands for are `bytes`.
pub proof fn lemma_base64_round_trip(bytes: Seq<u8>)
    ensures
        base64_bytes(base64_text(bytes)) == Some(bytes),
{
    let text = base64_text(bytes);
    let found = choose|b: Seq<u8>| base64_text(b) == text;
    lemma_base64_injective(found, bytes);
}

/// Decodes standard base64 with canonical padding.
pub fn base64_decode(text: &str) -> (r: Option<Vec<u8>>)
    ensures
        match r {
            Some(bytes) => base64_bytes(text@) == Some(bytes@),
            None => base64_bytes(text@) is None,
        },
{
    let r = standard_decode(text);
    proof {
        if let Some(bytes) = &r {
            lemma_base64_round_trip(bytes@);
        }
    }
    r
}

/// A text without white space at its ends is left as it is.
pub proof fn lemma_trimmed_bare(s: Seq<char>)
    requires
        s.len() > 0 ==> !is_white_space(s[0]) && !is_white_space(s.last()),
    ensures
        trimmed(s) == s,
{
}

/// What is taken off the ends of a text is white space, and what is left has none
/// there.
pub proof fn lemma_trimmed_split(s: Seq<char>)
    ensures
        trimmed(s).len() > 0 ==> !is_white_space(trimmed(s)[0]) && !is_white_space(
            trimmed(s).last(),
        ),
        exists|front: Seq<char>, back: Seq<char>|
            is_blank(front) && is_blank(back) && s == #[trigger] (front + trimmed(s) + back),
{
    lemma_trim_start_split(s);
    lemma_trim_end_split(trim_start(s));
    let t = trim_start(s);
    let front = s.take(s.len() - t.len());
    let back = t.skip(trimmed(s).len() as int);
    assert(s =~= front + trimmed(s) + back);
}

proof fn lemma_trim_start_split(s: Seq<char>)
    ensures
        trim_start(s).len() <= s.len(),
        is_blank(s.take(s.len() - trim_start(s).len())),
        s.skip(s.len() - trim_start(s).len()) == trim_start(s),
        trim_start(s).len() > 0 ==> !is_white_space(trim_start(s)[0]),
    decreases s.len(),
{
    let n = s.len() - trim_start(s).len();
    if s.len() > 0 && is_white_space(s[0]) {
        let rest = s.drop_first();
        lemma_trim_start_split(rest);
        assert forall|i: int| 0 <= i < n implies is_white_space(#[trigger] s.take(n)[i]) by {
            if i > 0 {
                assert(rest.take(n - 1)[i - 1] == s[i]);
            }
        }
        assert(s.skip(n) =~= rest.skip(n - 1));
    } else {
        assert(s.skip(0) =~= s);
    }
}

proof fn lemma_trim_end_split(s: Seq<char>)
    ensures
        trim_end(s).len() <= s.len(),
        is_blank(s.skip(trim_end(s).len() as int)),
        s.take(trim_end(s).len() as int) == trim_end(s),
        trim_end(s).len() > 0 ==> !is_white_space(trim_end(s).last()),
    decreases s.len(),
{
    let n = trim_end(s).len() as int;
    if s.len() > 0 && is_white_space(s.last()) {
        let rest = s.drop_last();
        lemma_trim_end_split(rest);
        assert forall|i: int| 0 <= i < s.len() - n implies is_white_space(
            #[trigger] s.skip(n)[i],
        ) by {
            if i < s.len() - n - 1 {
                assert(rest.skip(n)[i] == s[n + i]);
            }
        }
        assert(s.take(n) =~= rest.take(n));
    } else {
        assert(s.take(n) =~= s);
    }
}

/// Of the characters of ASCII, the space and the controls from tab to carriage
/// return are white space, and no other.
pub proof fn lemma_ascii_white_space(c: char)
    requires
        (c as u32) < 128,
    ensures
        is_white_space(c) <==> c == ' ' || '\t' <= c <= '\r',
{
}

/// Beyond ASCII, white space is the next line, the no-break space, the Ogham space
/// mark, the spaces of the general punctuation block with its line and paragraph
/// separators, and the ideographic space.
pub proof fn lemma_wide_white_space(c: char)
    requires
        (c as u32) >= 128,
    ensures
        is_white_space(c) <==> {
            ||| c == '\u{85}'
            ||| c == '\u{a0}'
            ||| c == '\u{1680}'
            ||| '\u{2000}' <= c <= '\u{200a}'
            ||| c == '\u{2028}'
            ||| c == '\u{2029}'
            ||| c == '\u{202f}'
            ||| c == '\u{205f}'
            ||| c == '\u{3000}'
        },
{
}

/// What follows a prefix, put after the prefix again, is the whole text; without
/// the prefix there is nothing.
pub proof fn lemma_after_prefix(s: Seq<char>, prefix: Seq<char>)
    ensures
        match after_prefix(s, prefix) {
            Some(rest) => s == prefix + rest,
            None => forall|rest: Seq<char>| s != #[trigger] (prefix + rest),
        },
{
    if prefix.is_prefix_of(s) {
        assert(s =~= prefix + s.skip(prefix.len() as int));
    } else {
        assert forall|rest: Seq<char>| s != #[trigger] (prefix + rest) by {
            if s == prefix + rest {
                assert(prefix =~= s.subrange(0, prefix.len() as int));
            }
        }
    }
}

/// The symbols of base64 stand in this order.
pub proof fn lemma_base64_alphabet(n: nat)
    requires
        n < 64,
    ensures
        base64_symbol(n)
            == "ABCDEFGHIJKLMNOPQRSTUVWXYZabcdefghijklmnopqrstuvwxyz0123456789+/"@[n as int],
{
    reveal_strlit("ABCDEFGHIJKLMNOPQRSTUVWXYZabcdefghijklmnopqrstuvwxyz0123456789+/");
}

/// Whole groups of three bytes are written on their own.
pub proof fn lemma_base64_concat(x: Seq<u8>, y: Seq<u8>)
    requires
        x.len() % 3 == 0,
    ensures
        base64_text(x + y) == base64_text(x) + base64_text(y),
    decreases x.len(),
{
    if x.len() == 0 {
        assert(x + y =~= y);
        assert(base64_text(x) + base64_text(y) =~= base64_text(y));
    } else {
        let rest = x.skip(3);
        lemma_base64_concat(rest, y);
        assert((x + y).skip(3) =~= rest + y);
        assert(base64_text(rest).len() == 0 <==> rest.len() == 0);
        assert(base64_text(x + y) =~= base64_text(x) + base64_text(y));
    }
}

/// A number has one set of four digits in base 64.
proof fn lemma_four_digits(i: nat, j: nat, k: nat, l: nat, p: nat, q: nat, r: nat, s: nat)
    requires
        i < 64,
        j < 64,
        k < 64,
        l < 64,
        p < 64,
        q < 64,
        r < 64,
        s < 64,
        262144 * i + 4096 * j + 64 * k + l == 262144 * p + 4096 * q + 64 * r + s,
    ensures
        i == p,
        j == q,
        k == r,
        l == s,
{
    assert(i == p);
    assert(j == q);
}

proof fn lemma_group_digits(x: nat, y: nat, z: nat)
    requires
        x < 256,
        y < 256,
        z < 256,
    ensures
        65536 * x + 256 * y + z == 262144 * (x / 4) + 4096 * (x % 4 * 16 + y / 16) + 64 * (y % 16
            * 4 + z / 64) + z % 64,
        x / 4 < 64,
        x % 4 * 16 + y / 16 < 64,
        y % 16 * 4 + z / 64 < 64,
{
}

/// Three bytes, as one number, are four symbols, as digits in base 64, highest
/// first; two bytes are three symbols and a `=`, one byte two symbols and two,
/// with zero bits at the end.
pub proof fn lemma_base64_group(a: u8, b: u8, c: u8, i: nat, j: nat, k: nat, l: nat)
    requires
        i < 64,
        j < 64,
        k < 64,
        l < 64,
    ensures
        base64_text(Seq::empty()) == Seq::<char>::empty(),
        65536 * a + 256 * b + c == 262144 * i + 4096 * j + 64 * k + l ==> base64_text(
            seq![a, b, c],
        ) == seq![base64_symbol(i), base64_symbol(j), base64_symbol(k), base64_symbol(l)],
        65536 * a + 256 * b == 262144 * i + 4096 * j + 64 * k ==> base64_text(seq![a, b]) == seq![
            base64_symbol(i),
            base64_symbol(j),
            base64_symbol(k),
            '=',
        ],
        65536 * a == 262144 * i + 4096 * j ==> base64_text(seq![a]) == seq![
            base64_symbol(i),
            base64_symbol(j),
            '=',
            '=',
        ],
{
    assert(base64_text(Seq::empty()) =~= Seq::empty());
    let (x, y, z) = (a as nat, b as nat, c as nat);
    if 65536 * a + 256 * b + c == 262144 * i + 4096 * j + 64 * k + l {
        lemma_group_digits(x, y, z);
        lemma_four_digits(
            i,
            j,
            k,
            l,
            x / 4,
            x % 4 * 16 + y / 16,
            y % 16 * 4 + z / 64,
            z % 64,
        );
        assert(base64_text(seq![a, b, c]) =~= seq![
            base64_symbol(i),
            base64_symbol(j),
            base64_symbol(k),
            base64_symbol(l),
        ]);
    }
    if 65536 * a + 256 * b == 262144 * i + 4096 * j + 64 * k {
        lemma_group_digits(x, y, 0);
        lemma_four_digits(i, j, k, 0, x / 4, x % 4 * 16 + y / 16, y % 16 * 4, 0);
        assert(base64_text(seq![a, b]) =~= seq![
            base64_symbol(i),
            base64_symbol(j),
            base64_symbol(k),
            '=',
        ]);
    }
    if 65536 * a == 262144 * i + 4096 * j {
        lemma_group_digits(x, 0, 0);
        lemma_four_digits(i, j, 0, 0, x / 4, x % 4 * 16, 0, 0);
        assert(base64_text(seq![a]) =~= seq![base64_symbol(i), base64_symbol(j), '=', '=']);
    }
}

/// A text is decoded to bytes exactly when it is their base64 text.
pub proof fn lemma_base64_bytes(text: Seq<char>)
    ensures
        forall|bytes: Seq<u8>|
            base64_bytes(text) == Some(bytes) <==> #[trigger] base64_text(bytes) == text,
{
    assert forall|bytes: Seq<u8>|
        base64_bytes(text) == Some(bytes) <==> #[trigger] base64_text(bytes) == text by {
        if base64_text(bytes) == text {
            lemma_base64_round_trip(bytes);
        }
    }
}

} // verus!
