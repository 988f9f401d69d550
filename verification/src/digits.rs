//! Fixed-width decimal numerals: a number is written as exactly `w` digit
//! characters with leading zeros. The representation is proved to round
//! trip, which the snapshot codec's inversion proof rests on.

use vstd::prelude::*;

verus! {

/// `t` occurs in `s` starting at position `i`.
pub open spec fn seq_at(s: Seq<char>, i: int, t: Seq<char>) -> bool {
    0 <= i && i + t.len() <= s.len() && s.subrange(i, i + t.len()) == t
}

/// Ten to the `w`.
pub open spec fn pow10(w: nat) -> nat
    decreases w,
{
    if w == 0 {
        1
    } else {
        10 * pow10((w - 1) as nat)
    }
}

/// The digit character for a value below ten.
pub open spec fn char_of_digit(d: nat) -> char {
    if d == 0 {
        '0'
    } else if d == 1 {
        '1'
    } else if d == 2 {
        '2'
    } else if d == 3 {
        '3'
    } else if d == 4 {
        '4'
    } else if d == 5 {
        '5'
    } else if d == 6 {
        '6'
    } else if d == 7 {
        '7'
    } else if d == 8 {
        '8'
    } else {
        '9'
    }
}

/// `c` is a decimal digit character.
pub open spec fn is_digit(c: char) -> bool {
    48 <= c as u32 <= 57
}

/// The numeric value of a digit character.
pub open spec fn digit_val(c: char) -> nat {
    (c as u32 - 48) as nat
}

/// Every character of `s` is a decimal digit.
pub open spec fn all_digits(s: Seq<char>) -> bool {
    forall|i: int| 0 <= i < s.len() ==> is_digit(s[i])
}

/// `n` written as exactly `w` decimal digits, leading zeros included;
/// digits beyond the width are discarded.
pub open spec fn pad(n: nat, w: nat) -> Seq<char>
    decreases w,
{
    if w == 0 {
        Seq::empty()
    } else {
        pad(n / 10, (w - 1) as nat).push(char_of_digit(n % 10))
    }
}

/// The value of a digit string, most significant digit first.
pub open spec fn dec_val(s: Seq<char>) -> nat
    decreases s.len(),
{
    if s.len() == 0 {
        0
    } else {
        dec_val(s.drop_last()) * 10 + digit_val(s.last())
    }
}

/// Writing and reading a digit are inverse for values below ten.
proof fn lemma_char_digit(d: nat)
    requires
        d < 10,
    ensures
        is_digit(char_of_digit(d)),
        digit_val(char_of_digit(d)) == d,
{
}

/// A digit character is written back by `char_of_digit`.
proof fn lemma_digit_char(c: char)
    requires
        is_digit(c),
    ensures
        digit_val(c) < 10,
        char_of_digit(digit_val(c)) == c,
{
}

/// A padded numeral has exactly its width in characters.
pub broadcast proof fn lemma_pad_len(n: nat, w: nat)
    ensures
        (#[trigger] pad(n, w)).len() == w,
    decreases w,
{
    if w > 0 {
        lemma_pad_len(n / 10, (w - 1) as nat);
    }
}

/// A padded numeral is `w` digit characters.
pub proof fn lemma_pad_digits(n: nat, w: nat)
    ensures
        pad(n, w).len() == w,
        all_digits(pad(n, w)),
    decreases w,
{
    if w > 0 {
        lemma_pad_digits(n / 10, (w - 1) as nat);
        lemma_char_digit(n % 10);
        assert forall|i: int| 0 <= i < w implies is_digit(pad(n, w)[i]) by {
            if i < w - 1 {
                assert(pad(n, w)[i] == pad(n / 10, (w - 1) as nat)[i]);
            }
        }
    }
}

/// A value below `pow10(w)` is recovered from its `w`-digit numeral.
pub proof fn lemma_pad_val(n: nat, w: nat)
    requires
        n < pow10(w),
    ensures
        dec_val(pad(n, w)) == n,
    decreases w,
{
    if w == 0 {
    } else {
        assert(n / 10 < pow10((w - 1) as nat)) by (nonlinear_arith)
            requires
                n < 10 * pow10((w - 1) as nat),
        ;
        lemma_pad_val(n / 10, (w - 1) as nat);
        let s = pad(n, w);
        assert(s.drop_last() =~= pad(n / 10, (w - 1) as nat));
        lemma_char_digit(n % 10);
        assert(n == (n / 10) * 10 + n % 10) by (nonlinear_arith);
    }
}

/// Every digit string is the numeral of its own value.
pub proof fn lemma_digits_pad(s: Seq<char>)
    requires
        all_digits(s),
    ensures
        pad(dec_val(s), s.len()) == s,
    decreases s.len(),
{
    if s.len() > 0 {
        let d = s.drop_last();
        let c = s.last();
        lemma_digit_char(c);
        lemma_digits_pad(d);
        let n = dec_val(s);
        assert(n == dec_val(d) * 10 + digit_val(c));
        assert(n / 10 == dec_val(d) && n % 10 == digit_val(c)) by (nonlinear_arith)
            requires
                n == dec_val(d) * 10 + digit_val(c),
                digit_val(c) < 10,
        ;
        assert(pad(n, s.len()) =~= s);
    }
}

/// The value of a prefix of a digit string never exceeds the whole.
pub proof fn lemma_dec_val_prefix(s: Seq<char>, k: int)
    requires
        0 <= k <= s.len(),
    ensures
        dec_val(s.take(k)) <= dec_val(s),
    decreases s.len(),
{
    if k < s.len() {
        lemma_dec_val_prefix(s.drop_last(), k);
        assert(s.drop_last().take(k) =~= s.take(k));
        assert(dec_val(s.drop_last()) * 10 + digit_val(s.last()) >= dec_val(s.drop_last()))
            by (nonlinear_arith);
    } else {
        assert(s.take(k) =~= s);
    }
}

/// `pow10(20)` exceeds every `u64`.
pub proof fn lemma_pow10_20()
    ensures
        pow10(20) > u64::MAX,
{
    reveal_with_fuel(pow10, 21);
}

/// The digit character of a value below ten.
pub fn digit_char(d: u64) -> (c: char)
    requires
        d < 10,
    ensures
        c == char_of_digit(d as nat),
{
    if d == 0 {
        '0'
    } else if d == 1 {
        '1'
    } else if d == 2 {
        '2'
    } else if d == 3 {
        '3'
    } else if d == 4 {
        '4'
    } else if d == 5 {
        '5'
    } else if d == 6 {
        '6'
    } else if d == 7 {
        '7'
    } else if d == 8 {
        '8'
    } else {
        '9'
    }
}

/// The value of a digit character, or `None` for any other character.
pub fn char_digit(c: char) -> (r: Option<u64>)
    ensures
        match r {
            Some(d) => is_digit(c) && d < 10 && d as nat == digit_val(c),
            None => !is_digit(c),
        },
{
    let u = c as u32;
    if 48 <= u && u <= 57 {
        Some((u - 48) as u64)
    } else {
        None
    }
}

/// Appends the `w`-digit numeral of `n` to `out`.
pub fn push_pad(out: &mut Vec<char>, n: u64, w: usize)
    ensures
        final(out)@ == old(out)@ + pad(n as nat, w as nat),
    decreases w,
{
    if w == 0 {
        proof {
            assert(final(out)@ =~= old(out)@ + pad(n as nat, 0));
        }
    } else {
        push_pad(out, n / 10, w - 1);
        out.push(digit_char(n % 10));
        proof {
            assert(final(out)@ =~= old(out)@ + pad(n as nat, w as nat));
        }
    }
}

/// What a numeral occurring in `s` at `i` pins down.
pub proof fn lemma_seq_at_pad(s: Seq<char>, i: int, n: nat, w: nat)
    requires
        seq_at(s, i, pad(n, w)),
    ensures
        i + w <= s.len(),
        s.subrange(i, i + w as int) == pad(n, w),
{
    lemma_pad_digits(n, w);
    assert(s.subrange(i, i + w as int) == s.subrange(i, i + pad(n, w).len() as int));
}

/// Reads exactly `w` digit characters at `i` as a number. Fails on a short
/// input, a non-digit, or a value over `u64::MAX`; in particular it accepts
/// every numeral `pad(n, w)` of a `u64` value `n` below `pow10(w)`, and
/// returns exactly that value.
pub fn parse_num(s: &Vec<char>, i: usize, w: usize) -> (r: Option<(u64, usize)>)
    requires
        i <= s@.len(),
    ensures
        match r {
            Some((n, j)) => j == i + w && j <= s@.len() && s@.subrange(i as int, j as int) == pad(
                n as nat,
                w as nat,
            ),
            None => true,
        },
        forall|n: u64|
            seq_at(s@, i as int, pad(n as nat, w as nat)) && n < pow10(w as nat) ==> r == Some(
                (n, (i + w) as usize),
            ),
{
    if s.len() - i < w {
        proof {
            assert forall|n: u64|
                seq_at(s@, i as int, pad(n as nat, w as nat)) && n < pow10(w as nat) implies
            false by {
                lemma_seq_at_pad(s@, i as int, n as nat, w as nat);
            }
        }
        return None;
    }
    let end: usize = i + w;
    let mut acc: u64 = 0;
    let mut j: usize = i;
    proof {
        assert(s@.subrange(i as int, i as int) =~= Seq::<char>::empty());
    }
    while j < end
        invariant
            i <= j <= end,
            end == i + w,
            end <= s@.len(),
            all_digits(s@.subrange(i as int, j as int)),
            acc as nat == dec_val(s@.subrange(i as int, j as int)),
        decreases end - j,
    {
        let ghost pre = s@.subrange(i as int, j as int);
        let ghost k: int = j - i;
        let c = s[j];
        match char_digit(c) {
            Some(d) => {
                if acc > (u64::MAX - d) / 10 {
                    proof {
                        assert forall|n: u64|
                            seq_at(s@, i as int, pad(n as nat, w as nat)) && n < pow10(w as nat)
                            implies false by {
                            lemma_seq_at_pad(s@, i as int, n as nat, w as nat);
                            let full = s@.subrange(i as int, end as int);
                            lemma_pad_val(n as nat, w as nat);
                            lemma_dec_val_prefix(full, k + 1);
                            assert(full.take(k + 1) =~= s@.subrange(i as int, j + 1));
                            assert(s@.subrange(i as int, j + 1).drop_last() =~= pre);
                            assert(s@.subrange(i as int, j + 1).last() == c);
                            assert(dec_val(s@.subrange(i as int, j + 1)) == acc as nat * 10
                                + d as nat);
                            assert(acc as nat * 10 + d as nat > u64::MAX) by (nonlinear_arith)
                                requires
                                    acc as nat > (u64::MAX - d as nat) / 10,
                                    d < 10,
                            ;
                        }
                    }
                    return None;
                }
                proof {
                    assert(s@.subrange(i as int, j + 1).drop_last() =~= pre);
                    assert(s@.subrange(i as int, j + 1).last() == c);
                    assert(acc as nat * 10 + d as nat <= u64::MAX) by (nonlinear_arith)
                        requires
                            acc as nat <= (u64::MAX - d as nat) / 10,
                            d < 10,
                    ;
                }
                acc = acc * 10 + d;
            },
            None => {
                proof {
                    assert forall|n: u64|
                        seq_at(s@, i as int, pad(n as nat, w as nat)) && n < pow10(w as nat)
                        implies false by {
                        lemma_seq_at_pad(s@, i as int, n as nat, w as nat);
                        lemma_pad_digits(n as nat, w as nat);
                        assert(c == s@.subrange(i as int, end as int)[k]);
                        assert(is_digit(pad(n as nat, w as nat)[k]));
                    }
                }
                return None;
            },
        }
        j = j + 1;
    }
    proof {
        let got = s@.subrange(i as int, end as int);
        lemma_digits_pad(got);
        assert forall|n: u64|
            seq_at(s@, i as int, pad(n as nat, w as nat)) && n < pow10(w as nat) implies Some(
            (acc, end),
        ) == Some((n, (i + w) as usize)) by {
            lemma_seq_at_pad(s@, i as int, n as nat, w as nat);
            lemma_pad_val(n as nat, w as nat);
        }
    }
    Some((acc, end))
}

} // verus!
