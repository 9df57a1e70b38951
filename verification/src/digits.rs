//! Decimal digit sequences: their numeric value, bounded parsing, and
//! rendering. Numeric fields of filenames and catalog pages go through these
//! functions.

use vstd::prelude::*;

verus! {

/// Whether `c` is a decimal digit.
pub open spec fn is_digit(c: char) -> bool {
    '0' <= c && c <= '9'
}

/// The numeric value of a digit character.
pub open spec fn digit_val(c: char) -> nat {
    ((c as u32) - ('0' as u32)) as nat
}

/// Whether every character of `s` is a decimal digit.
pub open spec fn all_digits(s: Seq<char>) -> bool {
    forall|i: int| 0 <= i < s.len() ==> is_digit(#[trigger] s[i])
}

/// The value of `s` read as a decimal numeral.
pub open spec fn dec_val(s: Seq<char>) -> nat
    decreases s.len(),
{
    if s.len() == 0 {
        0
    } else {
        dec_val(s.drop_last()) * 10 + digit_val(s.last())
    }
}

/// The canonical decimal numeral of `n`: no leading zero except for `0`.
pub open spec fn dec_digits(n: nat) -> Seq<char>
    decreases n,
{
    if n < 10 {
        seq![digit_char(n % 10)]
    } else {
        dec_digits(n / 10).push(digit_char(n % 10))
    }
}

/// The digit character with value `d` (for `d < 10`).
pub open spec fn digit_char(d: nat) -> char {
    if d == 0 {
        '0'
    } else if d == 1 {
        '1'
    } else if d == 2 {
        '2'
    } else if d == 3 {
        '3'
    } else if d == 4 {
        '4'
    } else if d == 5 {
        '5'
    } else if d == 6 {
        '6'
    } else if d == 7 {
        '7'
    } else if d == 8 {
        '8'
    } else {
        '9'
    }
}

/// Whether `s` is a well-formed numeral: nonempty and all digits.
pub open spec fn is_numeral(s: Seq<char>) -> bool {
    s.len() > 0 && all_digits(s)
}

/// Appending digits to a numeral never lowers its value.
proof fn lemma_dec_val_prefix(s: Seq<char>, i: int)
    requires
        0 <= i <= s.len(),
    ensures
        dec_val(s.take(i)) <= dec_val(s),
    decreases s.len() - i,
{
    if i < s.len() {
        assert(s.take(i + 1).drop_last() =~= s.take(i));
        assert(dec_val(s.take(i + 1)) == dec_val(s.take(i)) * 10 + digit_val(s.take(i + 1).last()));
        assert(dec_val(s.take(i)) <= dec_val(s.take(i)) * 10) by (nonlinear_arith);
        lemma_dec_val_prefix(s, i + 1);
        assert(s.take(s.len() as int) =~= s);
    } else {
        assert(s.take(i) =~= s);
    }
}

fn is_digit_exec(c: char) -> (r: bool)
    ensures
        r == is_digit(c),
{
    '0' <= c && c <= '9'
}

/// Reads `v[from..to]` as a decimal numeral. Returns its value exactly when
/// the range is a nonempty run of digits whose value is at most `max`.
pub fn parse_dec(v: &Vec<char>, from: usize, to: usize, max: u64) -> (r: Option<u64>)
    requires
        from <= to <= v@.len(),
    ensures
        match r {
            Some(n) => {
                &&& is_numeral(v@.subrange(from as int, to as int))
                &&& n == dec_val(v@.subrange(from as int, to as int))
                &&& n <= max
            },
            None => !(is_numeral(v@.subrange(from as int, to as int)) && dec_val(
                v@.subrange(from as int, to as int),
            ) <= max),
        },
{
    let ghost s = v@.subrange(from as int, to as int);
    if from == to {
        return None;
    }
    let mut acc: u64 = 0;
    let mut i: usize = from;
    while i < to
        invariant
            from <= i <= to <= v@.len(),
            s == v@.subrange(from as int, to as int),
            all_digits(s.take(i - from)),
            acc == dec_val(s.take(i - from)),
            acc <= max,
        decreases to - i,
    {
        let c = v[i];
        proof {
            assert(s[i - from] == v@[i as int]);
        }
        if !is_digit_exec(c) {
            proof {
                assert(!is_digit(s[i - from]));
            }
            return None;
        }
        let d: u64 = (c as u32 - '0' as u32) as u64;
        let wide: u128 = acc as u128 * 10 + d as u128;
        proof {
            assert(s.take(i - from + 1).drop_last() =~= s.take(i - from));
            assert(s.take(i - from + 1).last() == s[i - from]);
            assert(wide == dec_val(s.take(i - from + 1)));
        }
        if wide > max as u128 {
            proof {
                lemma_dec_val_prefix(s, i - from + 1);
            }
            return None;
        }
        acc = wide as u64;
        i += 1;
    }
    proof {
        assert(s.take(to - from) =~= s);
    }
    Some(acc)
}

/// `dec_digits` renders digits only.
pub proof fn lemma_dec_digits_are_digits(n: nat)
    ensures
        is_numeral(dec_digits(n)),
    decreases n,
{
    if n >= 10 {
        lemma_dec_digits_are_digits(n / 10);
    }
}

/// A digit character reads back as its value.
pub proof fn lemma_digit_roundtrip(d: nat)
    requires
        d < 10,
    ensures
        digit_val(digit_char(d)) == d,
{
    if d == 0 {
        assert(digit_val('0') == 0);
    } else if d == 1 {
        assert(digit_val('1') == 1);
    } else if d == 2 {
        assert(digit_val('2') == 2);
    } else if d == 3 {
        assert(digit_val('3') == 3);
    } else if d == 4 {
        assert(digit_val('4') == 4);
    } else if d == 5 {
        assert(digit_val('5') == 5);
    } else if d == 6 {
        assert(digit_val('6') == 6);
    } else if d == 7 {
        assert(digit_val('7') == 7);
    } else if d == 8 {
        assert(digit_val('8') == 8);
    } else {
        assert(digit_val('9') == 9);
    }
}

/// Reading the canonical numeral of `n` back gives `n`.
pub proof fn lemma_dec_digits_val(n: nat)
    ensures
        dec_val(dec_digits(n)) == n,
    decreases n,
{
    lemma_digit_roundtrip(n % 10);
    if n < 10 {
        assert(dec_digits(n) =~= seq![digit_char(n % 10)]);
        assert(dec_digits(n).drop_last() =~= Seq::<char>::empty());
        assert(dec_val(Seq::<char>::empty()) == 0);
        assert(dec_digits(n).last() == digit_char(n % 10));
        assert(dec_val(dec_digits(n)) == dec_val(dec_digits(n).drop_last()) * 10 + digit_val(
            dec_digits(n).last(),
        ));
        assert(dec_val(dec_digits(n)) == 0 * 10 + digit_val(digit_char(n % 10)));
    } else {
        lemma_dec_digits_val(n / 10);
        assert(dec_digits(n).drop_last() =~= dec_digits(n / 10));
        assert(dec_digits(n).last() == digit_char(n % 10));
        assert(dec_val(dec_digits(n)) == (n / 10) * 10 + digit_val(digit_char(n % 10)));
    }
}

/// A four-digit numeral is at most 9999.
pub proof fn lemma_year_bound(s: Seq<char>)
    requires
        s.len() == 4,
        all_digits(s),
    ensures
        dec_val(s) <= 9999,
{
    let s3 = s.drop_last();
    let s2 = s3.drop_last();
    let s1 = s2.drop_last();
    assert(s1.drop_last().len() == 0);
    assert(is_digit(s[0]) && is_digit(s[1]) && is_digit(s[2]) && is_digit(s[3]));
    assert(s.last() == s[3] && s3.last() == s[2] && s2.last() == s[1] && s1.last() == s[0]);
    assert(digit_val(s[0]) <= 9 && digit_val(s[1]) <= 9 && digit_val(s[2]) <= 9 && digit_val(s[3])
        <= 9);
    assert(dec_val(s1.drop_last()) == 0);
    assert(dec_val(s1) == digit_val(s[0]));
    assert(dec_val(s2) == dec_val(s1) * 10 + digit_val(s[1]));
    assert(dec_val(s3) == dec_val(s2) * 10 + digit_val(s[2]));
    assert(dec_val(s) == dec_val(s3) * 10 + digit_val(s[3]));
}

fn digit_char_exec(d: u64) -> (c: char)
    requires
        d < 10,
    ensures
        c == digit_char(d as nat),
{
    if d == 0 {
        '0'
    } else if d == 1 {
        '1'
    } else if d == 2 {
        '2'
    } else if d == 3 {
        '3'
    } else if d == 4 {
        '4'
    } else if d == 5 {
        '5'
    } else if d == 6 {
        '6'
    } else if d == 7 {
        '7'
    } else if d == 8 {
        '8'
    } else {
        '9'
    }
}

/// The canonical decimal numeral of `n`, as characters.
pub fn render_u64(n: u64) -> (v: Vec<char>)
    ensures
        v@ == dec_digits(n as nat),
{
    let mut m: u64 = n;
    let mut out: Vec<char> = Vec::new();
    let c0 = digit_char_exec(m % 10);
    out.push(c0);
    m = m / 10;
    while m > 0
        invariant
            dec_digits(n as nat) == if m == 0 {
                out@
            } else {
                dec_digits(m as nat) + out@
            },
            out@.len() >= 1,
        decreases m,
    {
        let c = digit_char_exec(m % 10);
        out.insert(0, c);
        proof {
            if m >= 10 {
                assert(dec_digits(m as nat) =~= dec_digits((m as nat) / 10).push(
                    digit_char((m as nat) % 10),
                ));
                assert(dec_digits((m as nat) / 10) + out@ =~= dec_digits(m as nat)
                    + out@.subrange(1, out@.len() as int));
            } else {
                assert(dec_digits(m as nat) =~= seq![digit_char((m as nat) % 10)]);
                assert(seq![digit_char((m as nat) % 10)] + out@.subrange(1, out@.len() as int)
                    =~= out@);
            }
        }
        m = m / 10;
    }
    out
}

} // verus!
