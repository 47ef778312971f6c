//! Decimal numerals: the digit strings the patch headers carry, their
//! mathematical value, and verified formatting and parsing.

use vstd::prelude::*;
use vstd::string::StrSliceExecFns;

verus! {

/// The character is a decimal digit.
pub open spec fn is_digit(c: char) -> bool {
    48 <= c as int <= 57
}

/// The value of a digit character.
pub open spec fn digit_val(c: char) -> int {
    c as int - 48
}

/// The digit character of a value below ten.
pub open spec fn digit_char(d: int) -> char {
    if d == 0 {
        '0'
    } else if d == 1 {
        '1'
    } else if d == 2 {
        '2'
    } else if d == 3 {
        '3'
    } else if d == 4 {
        '4'
    } else if d == 5 {
        '5'
    } else if d == 6 {
        '6'
    } else if d == 7 {
        '7'
    } else if d == 8 {
        '8'
    } else {
        '9'
    }
}

/// The canonical decimal numeral of `x`: no leading zeroes, most significant
/// digit first.
pub open spec fn dec_digits(x: nat) -> Seq<char>
    decreases x,
{
    if x < 10 {
        seq![digit_char(x as int)]
    } else {
        dec_digits(x / 10).push(digit_char((x % 10) as int))
    }
}

/// The text is a numeral: non-empty and all digits. Leading zeroes are
/// accepted when parsing.
pub open spec fn is_numeral(s: Seq<char>) -> bool {
    s.len() > 0 && forall|i: int| 0 <= i < s.len() ==> is_digit(#[trigger] s[i])
}

/// The value of a digit string, most significant digit first.
pub open spec fn numeral_value(s: Seq<char>) -> int
    decreases s.len(),
{
    if s.len() == 0 {
        0
    } else {
        numeral_value(s.drop_last()) * 10 + digit_val(s.last())
    }
}

/// The canonical numeral of a value is a numeral of that value, out of digit
/// characters only.
pub proof fn lemma_dec_digits(x: nat)
    ensures
        is_numeral(dec_digits(x)),
        numeral_value(dec_digits(x)) == x,
    decreases x,
{
    if x < 10 {
        let s = dec_digits(x);
        assert(s.drop_last() =~= Seq::<char>::empty());
        assert(numeral_value(Seq::<char>::empty()) == 0);
        assert(s.last() == digit_char(x as int));
        assert(numeral_value(s) == digit_val(digit_char(x as int)));
    } else {
        lemma_dec_digits(x / 10);
        let s = dec_digits(x);
        assert(s.drop_last() =~= dec_digits(x / 10));
        assert(s.last() == digit_char((x % 10) as int));
        assert(digit_val(digit_char((x % 10) as int)) == x % 10);
        assert(numeral_value(s) == (x / 10) * 10 + x % 10);
        assert((x / 10) * 10 + x % 10 == x) by (nonlinear_arith);
        assert forall|i: int| 0 <= i < s.len() implies is_digit(#[trigger] s[i]) by {
            if i < s.len() - 1 {
                assert(s[i] == dec_digits(x / 10)[i]);
            }
        }
    }
}

/// The value of a digit string is never negative.
pub proof fn lemma_numeral_nonneg(s: Seq<char>)
    requires
        forall|i: int| 0 <= i < s.len() ==> is_digit(#[trigger] s[i]),
    ensures
        numeral_value(s) >= 0,
    decreases s.len(),
{
    if s.len() > 0 {
        assert forall|i: int| 0 <= i < s.drop_last().len() implies is_digit(
            #[trigger] s.drop_last()[i],
        ) by {
            assert(s.drop_last()[i] == s[i]);
        }
        lemma_numeral_nonneg(s.drop_last());
        assert(numeral_value(s.drop_last()) * 10 >= 0) by (nonlinear_arith)
            requires
                numeral_value(s.drop_last()) >= 0,
        ;
    }
}

/// Extending a digit string never lowers its value.
pub proof fn lemma_numeral_prefix(s: Seq<char>, k: int)
    requires
        forall|i: int| 0 <= i < s.len() ==> is_digit(#[trigger] s[i]),
        0 <= k <= s.len(),
    ensures
        numeral_value(s) >= numeral_value(s.take(k)),
    decreases s.len() - k,
{
    if k < s.len() {
        lemma_numeral_prefix(s, k + 1);
        let t = s.take(k + 1);
        assert(t.drop_last() =~= s.take(k));
        assert(t.last() == s[k]);
        assert forall|i: int| 0 <= i < s.take(k).len() implies is_digit(
            #[trigger] s.take(k)[i],
        ) by {
            assert(s.take(k)[i] == s[i]);
        }
        lemma_numeral_nonneg(s.take(k));
        assert(numeral_value(t) == numeral_value(s.take(k)) * 10 + digit_val(s[k]));
        assert(numeral_value(s.take(k)) * 10 >= numeral_value(s.take(k))) by (nonlinear_arith)
            requires
                numeral_value(s.take(k)) >= 0,
        ;
        assert(digit_val(s[k]) >= 0);
    } else {
        assert(s.take(k) =~= s);
    }
}

/// One digit as text.
fn digit_str(d: usize) -> (s: &'static str)
    requires
        d < 10,
    ensures
        s@ == seq![digit_char(d as int)],
{
    if d == 0 {
        proof {
            reveal_strlit("0");
            assert("0"@ =~= seq![digit_char(0)]);
        }
        "0"
    } else if d == 1 {
        proof {
            reveal_strlit("1");
            assert("1"@ =~= seq![digit_char(1)]);
        }
        "1"
    } else if d == 2 {
        proof {
            reveal_strlit("2");
            assert("2"@ =~= seq![digit_char(2)]);
        }
        "2"
    } else if d == 3 {
        proof {
            reveal_strlit("3");
            assert("3"@ =~= seq![digit_char(3)]);
        }
        "3"
    } else if d == 4 {
        proof {
            reveal_strlit("4");
            assert("4"@ =~= seq![digit_char(4)]);
        }
        "4"
    } else if d == 5 {
        proof {
            reveal_strlit("5");
            assert("5"@ =~= seq![digit_char(5)]);
        }
        "5"
    } else if d == 6 {
        proof {
            reveal_strlit("6");
            assert("6"@ =~= seq![digit_char(6)]);
        }
        "6"
    } else if d == 7 {
        proof {
            reveal_strlit("7");
            assert("7"@ =~= seq![digit_char(7)]);
        }
        "7"
    } else if d == 8 {
        proof {
            reveal_strlit("8");
            assert("8"@ =~= seq![digit_char(8)]);
        }
        "8"
    } else {
        proof {
            reveal_strlit("9");
            assert("9"@ =~= seq![digit_char(9)]);
        }
        "9"
    }
}

/// Formats a number as its canonical decimal numeral.
pub(crate) fn format_usize(x: usize) -> (s: String)
    ensures
        s@ == dec_digits(x as nat),
{
    let mut digits: Vec<usize> = Vec::new();
    digits.push(x % 10);
    let mut rem: usize = x / 10;
    while rem > 0
        invariant
            digits@.len() >= 1,
            forall|t: int| 0 <= t < digits@.len() ==> #[trigger] digits@[t] < 10,
            if rem > 0 {
                dec_digits(x as nat) =~= dec_digits(rem as nat) + Seq::new(
                    digits@.len(),
                    |i: int| digit_char(digits@[digits@.len() - 1 - i] as int),
                )
            } else {
                dec_digits(x as nat) =~= Seq::new(
                    digits@.len(),
                    |i: int| digit_char(digits@[digits@.len() - 1 - i] as int),
                )
            },
        decreases rem,
    {
        let ghost pre = digits@;
        digits.push(rem % 10);
        let next: usize = rem / 10;
        proof {
            let cur = Seq::new(
                digits@.len(),
                |i: int| digit_char(digits@[digits@.len() - 1 - i] as int),
            );
            let old_chars = Seq::new(
                pre.len(),
                |i: int| digit_char(pre[pre.len() - 1 - i] as int),
            );
            if next > 0 {
                assert(dec_digits(rem as nat) == dec_digits((rem / 10) as nat).push(
                    digit_char((rem % 10) as int),
                ));
                assert(dec_digits((rem / 10) as nat) + cur =~= (dec_digits((rem / 10) as nat)
                    + seq![digit_char((rem % 10) as int)]) + old_chars);
                assert(dec_digits(rem as nat) + old_chars =~= (dec_digits((rem / 10) as nat)
                    + seq![digit_char((rem % 10) as int)]) + old_chars);
            } else {
                assert(rem < 10);
                assert(dec_digits(rem as nat) =~= seq![digit_char(rem as int)]);
                assert(cur =~= seq![digit_char((rem % 10) as int)] + old_chars);
                assert(dec_digits(rem as nat) + old_chars =~= seq![
                    digit_char((rem % 10) as int),
                ] + old_chars);
            }
        }
        rem = next;
    }
    let mut s = String::new();
    let mut i: usize = digits.len();
    while i > 0
        invariant
            i <= digits@.len(),
            forall|t: int| 0 <= t < digits@.len() ==> #[trigger] digits@[t] < 10,
            dec_digits(x as nat) == Seq::new(
                digits@.len(),
                |q: int| digit_char(digits@[digits@.len() - 1 - q] as int),
            ),
            s@ =~= dec_digits(x as nat).take(digits@.len() - i),
        decreases i,
    {
        let d = digits[i - 1];
        s.append(digit_str(d));
        proof {
            assert(s@ =~= dec_digits(x as nat).take(digits@.len() - (i - 1)));
        }
        i = i - 1;
    }
    proof {
        assert(dec_digits(x as nat).take(digits@.len() as int) =~= dec_digits(x as nat));
    }
    s
}

/// Parses a decimal numeral. Returns the value exactly when the text is a
/// non-empty digit string whose value fits in `usize`.
pub(crate) fn parse_numeral(s: &str) -> (r: Option<usize>)
    ensures
        (r is Some) == (is_numeral(s@) && numeral_value(s@) <= usize::MAX),
        r matches Some(v) ==> v as int == numeral_value(s@),
{
    let n = s.unicode_len();
    if n == 0 {
        return None;
    }
    let mut acc: usize = 0;
    let mut i: usize = 0;
    proof {
        assert(s@.take(0) =~= Seq::<char>::empty());
    }
    while i < n
        invariant
            n == s@.len(),
            i <= n,
            forall|q: int| 0 <= q < i ==> is_digit(#[trigger] s@[q]),
            acc as int == numeral_value(s@.take(i as int)),
        decreases n - i,
    {
        let c = s.get_char(i);
        let u = c as u32;
        if u < 48 || u > 57 {
            proof {
                assert(!is_digit(s@[i as int]));
            }
            return None;
        }
        let d = (u - 48) as usize;
        proof {
            assert(s@.take(i + 1).drop_last() =~= s@.take(i as int));
            assert(s@.take(i + 1).last() == s@[i as int]);
            assert(numeral_value(s@.take(i + 1)) == acc as int * 10 + d);
        }
        if acc > usize::MAX / 10 || (acc == usize::MAX / 10 && d > usize::MAX % 10) {
            proof {
                assert(acc as int * 10 + d > usize::MAX) by (nonlinear_arith)
                    requires
                        acc > usize::MAX / 10 || (acc == usize::MAX / 10 && d > usize::MAX % 10),
                        usize::MAX / 10 == (usize::MAX as int) / 10,
                        usize::MAX % 10 == (usize::MAX as int) % 10,
                        d >= 0,
                ;
                if is_numeral(s@) && numeral_value(s@) <= usize::MAX {
                    assert(forall|q: int| 0 <= q < s@.len() ==> is_digit(#[trigger] s@[q]));
                    lemma_numeral_prefix(s@, i + 1);
                    assert(false);
                }
            }
            return None;
        }
        proof {
            assert(acc as int * 10 + d <= usize::MAX) by (nonlinear_arith)
                requires
                    acc <= usize::MAX / 10,
                    acc == usize::MAX / 10 ==> d <= usize::MAX % 10,
                    usize::MAX / 10 == (usize::MAX as int) / 10,
                    usize::MAX % 10 == (usize::MAX as int) % 10,
                    0 <= d <= 9,
                    acc >= 0,
            ;
        }
        acc = acc * 10 + d;
        i = i + 1;
    }
    proof {
        assert(s@.take(n as int) =~= s@);
    }
    Some(acc)
}

} // verus!
