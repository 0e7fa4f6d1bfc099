//! Text helpers: UTF-8 byte lengths, decimal numerals, and a final newline.

use vstd::prelude::*;
use vstd::utf8::{
    encode_scalar, encode_utf8, encode_utf8_first_scalar, encode_utf8_valid_utf8, is_char_boundary,
    pop_first_scalar,
};

verus! {

/// The text of an optional string.
pub open spec fn opt_string_view(s: Option<String>) -> Option<Seq<char>> {
    match s {
        Some(t) => Some(t@),
        None => None,
    }
}

/// The number of bytes of the UTF-8 encoding of `s`, which is what
/// `str::len` returns.
pub open spec fn byte_len(s: Seq<char>) -> nat {
    encode_utf8(s).len()
}

/// The empty text has no bytes.
pub proof fn lemma_byte_len_empty()
    ensures
        byte_len(Seq::empty()) == 0,
{
    assert(encode_utf8(Seq::<char>::empty()) =~= Seq::<u8>::empty());
}

/// The encoding of a concatenation is the concatenation of the encodings.
pub proof fn lemma_encode_utf8_append(a: Seq<char>, b: Seq<char>)
    ensures
        encode_utf8(a + b) == encode_utf8(a) + encode_utf8(b),
    decreases a.len(),
{
    if a.len() == 0 {
        assert(a + b =~= b);
        assert(encode_utf8(a) =~= Seq::<u8>::empty());
        assert(encode_utf8(a) + encode_utf8(b) =~= encode_utf8(b));
    } else {
        assert((a + b).drop_first() =~= a.drop_first() + b);
        assert((a + b)[0] == a[0]);
        lemma_encode_utf8_append(a.drop_first(), b);
        assert(encode_utf8(a + b) =~= encode_scalar(a[0] as u32) + encode_utf8(a.drop_first() + b));
        assert(encode_utf8(a) + encode_utf8(b) =~= encode_scalar(a[0] as u32) + (encode_utf8(
            a.drop_first(),
        ) + encode_utf8(b)));
    }
}

/// Byte lengths add up over a concatenation.
pub proof fn lemma_byte_len_append(a: Seq<char>, b: Seq<char>)
    ensures
        byte_len(a + b) == byte_len(a) + byte_len(b),
{
    lemma_encode_utf8_append(a, b);
}

/// The bytes of a text begin a character, or end the text, right after the
/// bytes of any prefix of it.
pub proof fn lemma_prefix_is_char_boundary(a: Seq<char>, b: Seq<char>)
    ensures
        is_char_boundary(encode_utf8(a + b), byte_len(a) as int),
    decreases a.len(),
{
    let ab = a + b;
    let bytes = encode_utf8(ab);
    encode_utf8_valid_utf8(ab);
    if a.len() == 0 {
        assert(encode_utf8(a) =~= Seq::<u8>::empty());
    } else {
        encode_utf8_first_scalar(ab);
        assert(ab[0] == a[0]);
        assert(ab.drop_first() =~= a.drop_first() + b);
        assert(pop_first_scalar(bytes) =~= encode_utf8(ab.drop_first()));
        lemma_prefix_is_char_boundary(a.drop_first(), b);
        lemma_encode_utf8_append(a, b);
        assert(byte_len(a) == encode_scalar(a[0] as u32).len() + byte_len(a.drop_first()));
    }
}

/// The character of the decimal digit `d`.
pub open spec fn digit_char(d: nat) -> char {
    if d == 0 {
        '0'
    } else if d == 1 {
        '1'
    } else if d == 2 {
        '2'
    } else if d == 3 {
        '3'
    } else if d == 4 {
        '4'
    } else if d == 5 {
        '5'
    } else if d == 6 {
        '6'
    } else if d == 7 {
        '7'
    } else if d == 8 {
        '8'
    } else {
        '9'
    }
}

/// The decimal numeral of `n`, without leading zeros: what `format!("{}", n)`
/// writes for an unsigned integer.
pub open spec fn decimal(n: nat) -> Seq<char>
    decreases n,
{
    if n < 10 {
        seq![digit_char(n)]
    } else {
        decimal(n / 10).push(digit_char(n % 10))
    }
}

/// The number that a string of decimal digits stands for, most significant first.
pub open spec fn numeral_value(s: Seq<char>) -> int
    decreases s.len(),
{
    if s.len() == 0 {
        0
    } else {
        numeral_value(s.drop_last()) * 10 + (s.last() as int - '0' as int)
    }
}

/// Each decimal digit is the character that many places after `0`.
pub proof fn lemma_digit_char(d: nat)
    requires
        d < 10,
    ensures
        digit_char(d) as int == '0' as int + d,
{
}

/// The numeral of `n` is made of decimal digits, stands for `n`, and has no
/// leading zero unless `n` is zero.
pub proof fn lemma_decimal_numeral(n: nat)
    ensures
        decimal(n).len() >= 1,
        forall|i: int| 0 <= i < decimal(n).len() ==> '0' <= #[trigger] decimal(n)[i] <= '9',
        numeral_value(decimal(n)) == n,
        n > 0 ==> decimal(n)[0] != '0',
    decreases n,
{
    if n < 10 {
        lemma_digit_char(n);
        assert(decimal(n).drop_last() =~= Seq::<char>::empty());
        assert(numeral_value(decimal(n).drop_last()) == 0);
        assert(numeral_value(decimal(n)) == n);
    } else {
        let q = n / 10;
        let r = n % 10;
        assert(q * 10 + r == n && 1 <= q < n && r < 10) by (nonlinear_arith)
            requires
                q == n / 10,
                r == n % 10,
                n >= 10,
        ;
        lemma_decimal_numeral(q as nat);
        lemma_digit_char(r as nat);
        let d = decimal(n);
        assert(d == decimal(q as nat).push(digit_char(r as nat)));
        assert(d.drop_last() =~= decimal(q as nat));
        assert(d[0] == decimal(q as nat)[0]);
        assert(numeral_value(d) == numeral_value(decimal(q as nat)) * 10 + r);
        assert forall|i: int| 0 <= i < d.len() implies '0' <= #[trigger] d[i] <= '9' by {
            if i < d.len() - 1 {
                assert(d[i] == decimal(q as nat)[i]);
            }
        }
    }
}

fn digit_str(d: u128) -> (s: &'static str)
    requires
        d < 10,
    ensures
        s@ == seq![digit_char(d as nat)],
{
    if d == 0 {
        proof { reveal_strlit("0"); }
        "0"
    } else if d == 1 {
        proof { reveal_strlit("1"); }
        "1"
    } else if d == 2 {
        proof { reveal_strlit("2"); }
        "2"
    } else if d == 3 {
        proof { reveal_strlit("3"); }
        "3"
    } else if d == 4 {
        proof { reveal_strlit("4"); }
        "4"
    } else if d == 5 {
        proof { reveal_strlit("5"); }
        "5"
    } else if d == 6 {
        proof { reveal_strlit("6"); }
        "6"
    } else if d == 7 {
        proof { reveal_strlit("7"); }
        "7"
    } else if d == 8 {
        proof { reveal_strlit("8"); }
        "8"
    } else {
        proof { reveal_strlit("9"); }
        "9"
    }
}

/// Appends the decimal numeral of `n` to `out`.
pub fn push_decimal(out: &mut String, n: u128)
    ensures
        final(out)@ == old(out)@ + decimal(n as nat),
    decreases n,
{
    if n >= 10 {
        push_decimal(out, n / 10);
    }
    let d = digit_str(n % 10);
    out.append(d);
    proof {
        if n >= 10 {
            assert(decimal(n as nat) == decimal((n / 10) as nat).push(digit_char((n % 10) as nat)));
        }
    }
    assert(out@ =~= old(out)@ + decimal(n as nat));
}

/// `s` without one final `'\n'`, if it ends with one: what
/// `strip_suffix('\n').unwrap_or(s)` gives.
pub open spec fn without_final_newline(s: Seq<char>) -> Seq<char> {
    if s.len() > 0 && s.last() == '\n' {
        s.drop_last()
    } else {
        s
    }
}

/// Exactly one final newline is taken off, and text that does not end with
/// a newline is kept as it is.
pub proof fn lemma_without_final_newline(s: Seq<char>)
    ensures
        without_final_newline(s.push('\n')) == s,
        s.len() == 0 || s.last() != '\n' ==> without_final_newline(s) == s,
{
    assert(s.push('\n').drop_last() =~= s);
}

/// Copies `s` without one final `'\n'`.
pub fn strip_final_newline(s: &str) -> (r: String)
    ensures
        r@ == without_final_newline(s@),
{
    let n = s.unicode_len();
    if n > 0 && s.get_char(n - 1) == '\n' {
        String::from_str(s.substring_char(0, n - 1))
    } else {
        String::from_str(s)
    }
}

} // verus!
