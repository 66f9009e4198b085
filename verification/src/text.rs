//! Decimal text for unsigned numbers, character sequences, and the two
//! trusted bridges between the library's character vectors and `String`.

use vstd::prelude::*;

verus! {

/// The character for one decimal digit.
pub open spec fn digit_char(d: int) -> char {
    if d == 0 {
        '0'
    } else if d == 1 {
        '1'
    } else if d == 2 {
        '2'
    } else if d == 3 {
        '3'
    } else if d == 4 {
        '4'
    } else if d == 5 {
        '5'
    } else if d == 6 {
        '6'
    } else if d == 7 {
        '7'
    } else if d == 8 {
        '8'
    } else {
        '9'
    }
}

pub open spec fn is_digit(c: char) -> bool {
    c == '0' || c == '1' || c == '2' || c == '3' || c == '4' || c == '5' || c == '6' || c == '7'
        || c == '8' || c == '9'
}

/// The value of one decimal digit character.
pub open spec fn digit_val(c: char) -> int {
    if c == '0' {
        0
    } else if c == '1' {
        1
    } else if c == '2' {
        2
    } else if c == '3' {
        3
    } else if c == '4' {
        4
    } else if c == '5' {
        5
    } else if c == '6' {
        6
    } else if c == '7' {
        7
    } else if c == '8' {
        8
    } else {
        9
    }
}

/// The decimal digit characters of `n`, most significant first.
pub open spec fn dec_digits(n: int) -> Seq<char>
    decreases n,
{
    if n < 10 {
        seq![digit_char(n)]
    } else {
        dec_digits(n / 10).push(digit_char(n % 10))
    }
}

/// The value of a run of decimal digit characters.
pub open spec fn digits_val(s: Seq<char>) -> int
    decreases s.len(),
{
    if s.len() == 0 {
        0
    } else {
        digits_val(s.drop_last()) * 10 + digit_val(s.last())
    }
}

/// Writing a number and reading it back are inverse: the digits of `n`
/// are digits, there is at least one, and their value is `n`.
pub proof fn lemma_dec_digits(n: int)
    requires
        0 <= n,
    ensures
        dec_digits(n).len() >= 1,
        forall|i: int| 0 <= i < dec_digits(n).len() ==> is_digit(#[trigger] dec_digits(n)[i]),
        digits_val(dec_digits(n)) == n,
    decreases n,
{
    if n < 10 {
        let s = dec_digits(n);
        assert(s.drop_last() =~= Seq::<char>::empty());
        assert(digits_val(s) == digits_val(s.drop_last()) * 10 + digit_val(s.last()));
    } else {
        lemma_dec_digits(n / 10);
        let s = dec_digits(n);
        assert(s.drop_last() =~= dec_digits(n / 10));
        vstd::arithmetic::div_mod::lemma_fundamental_div_mod(n, 10);
    }
}

/// Digit runs are non-negative, and every prefix is worth no more than
/// the whole run.
pub proof fn lemma_digits_val_take(s: Seq<char>, k: int)
    requires
        0 <= k <= s.len(),
        forall|i: int| 0 <= i < s.len() ==> is_digit(#[trigger] s[i]),
    ensures
        0 <= digits_val(s.take(k)) <= digits_val(s),
        digits_val(s) >= 0,
    decreases s.len(),
{
    if s.len() == 0 {
    } else {
        lemma_digits_val_take(s.drop_last(), if k < s.len() {
            k
        } else {
            s.len() - 1
        });
        if k < s.len() {
            assert(s.take(k) =~= s.drop_last().take(k));
        } else {
            assert(s.take(k) =~= s);
        }
    }
}

/// Where the digit run starting at `pos` ends: the first position at or
/// after `pos` holding no digit.
pub open spec fn run_end(s: Seq<char>, pos: int) -> int
    decreases s.len() - pos,
{
    if pos < 0 || pos >= s.len() || !is_digit(s[pos]) {
        pos
    } else {
        run_end(s, pos + 1)
    }
}

/// A digit run bounded by a non-digit (or the end) ends exactly there.
pub proof fn lemma_run_end(s: Seq<char>, pos: int, end: int)
    requires
        0 <= pos <= end <= s.len(),
        forall|i: int| pos <= i < end ==> is_digit(#[trigger] s[i]),
        end == s.len() || !is_digit(s[end]),
    ensures
        run_end(s, pos) == end,
    decreases end - pos,
{
    if pos < end {
        lemma_run_end(s, pos + 1, end);
    }
}

pub proof fn lemma_run_end_bounds(s: Seq<char>, pos: int)
    requires
        0 <= pos <= s.len(),
    ensures
        pos <= run_end(s, pos) <= s.len(),
        forall|i: int| pos <= i < run_end(s, pos) ==> is_digit(#[trigger] s[i]),
        run_end(s, pos) == s.len() || !is_digit(s[run_end(s, pos)]),
    decreases s.len() - pos,
{
    if pos < s.len() && is_digit(s[pos]) {
        lemma_run_end_bounds(s, pos + 1);
    }
}

/// Append the decimal digits of `n`.
pub fn push_u64(out: &mut Vec<char>, n: u64)
    ensures
        final(out)@ == old(out)@ + dec_digits(n as int),
    decreases n,
{
    if n >= 10 {
        push_u64(out, n / 10);
    }
    let d: u64 = n % 10;
    let c: char = if d == 0 {
        '0'
    } else if d == 1 {
        '1'
    } else if d == 2 {
        '2'
    } else if d == 3 {
        '3'
    } else if d == 4 {
        '4'
    } else if d == 5 {
        '5'
    } else if d == 6 {
        '6'
    } else if d == 7 {
        '7'
    } else if d == 8 {
        '8'
    } else {
        '9'
    };
    out.push(c);
    proof {
        if n < 10 {
            assert(final(out)@ =~= old(out)@ + dec_digits(n as int));
        } else {
            assert(final(out)@ =~= old(out)@ + dec_digits(n as int));
        }
    }
}

/// Read the maximal decimal digit run starting at `pos`.  `None` when no
/// digit stands at `pos` or the run's value does not fit a `u64`.
pub fn read_u64(s: &Vec<char>, pos: usize) -> (r: Option<(u64, usize)>)
    requires
        pos <= s@.len(),
    ensures
        ({
            let end = run_end(s@, pos as int);
            let v = digits_val(s@.subrange(pos as int, end));
            if pos < s@.len() && is_digit(s@[pos as int]) && v <= u64::MAX {
                r == Option::Some((v as u64, end as usize))
            } else {
                r is None
            }
        }),
{
    proof {
        lemma_run_end_bounds(s@, pos as int);
    }
    let ghost end = run_end(s@, pos as int);
    let ghost run = s@.subrange(pos as int, end);
    if pos >= s.len() {
        return Option::None;
    }
    let first = s[pos];
    let first_val: u64 = match digit_value(first) {
        Option::Some(d) => d as u64,
        Option::None => {
            return Option::None;
        },
    };
    let mut acc: u64 = first_val;
    let mut i: usize = pos + 1;
    proof {
        lemma_digits_val_take(run, 1);
        assert(run.take(1) =~= seq![s@[pos as int]]);
        assert(run.take(1).drop_last() =~= Seq::<char>::empty());
        assert(digits_val(run.take(1)) == digits_val(run.take(1).drop_last()) * 10 + digit_val(
            run.take(1).last(),
        ));
    }
    loop
        invariant
            pos < i <= end <= s@.len(),
            run == s@.subrange(pos as int, end),
            forall|k: int| pos <= k < end ==> is_digit(#[trigger] s@[k]),
            run_end(s@, pos as int) == end,
            acc as int == digits_val(run.take(i - pos as int)),
        ensures
            i == end,
            acc as int == digits_val(run),
        decreases end - i,
    {
        proof {
            lemma_run_end_bounds(s@, pos as int);
        }
        if i == s.len() {
            proof {
                assert(i as int == end);
                assert(run.take(i - pos as int) =~= run);
            }
            break;
        }
        let c = s[i];
        let d: u64 = match digit_value(c) {
            Option::Some(d) => d as u64,
            Option::None => {
                proof {
                    assert((i as int) == end) by {
                        if (i as int) < end {
                            assert(is_digit(s@[i as int]));
                        }
                    }
                    assert(run.take(i - pos as int) =~= run);
                }
                break;
            },
        };
        proof {
            assert((i as int) < end) by {
                lemma_run_end_bounds(s@, pos as int);
                if i as int >= end {
                    assert(!is_digit(s@[i as int]) || i as int == s@.len());
                }
            }
            assert(run.take(i + 1 - pos as int).drop_last() =~= run.take(i - pos as int));
            assert(run.take(i + 1 - pos as int).last() == s@[i as int]);
            lemma_digits_val_take(run, i + 1 - pos as int);
        }
        let next = match acc.checked_mul(10) {
            Option::Some(t) => t.checked_add(d),
            Option::None => Option::None,
        };
        match next {
            Option::Some(v) => {
                acc = v;
            },
            Option::None => {
                // The run's value has outgrown a u64; so has the whole run.
                proof {
                    lemma_digits_val_take(run, run.len() as int);
                    assert(digits_val(run.take(i + 1 - pos as int)) > u64::MAX);
                }
                return Option::None;
            },
        }
        i = i + 1;
    }
    Option::Some((acc, i))
}

/// The value of one digit character, executable.
pub fn digit_value(c: char) -> (r: Option<u8>)
    ensures
        is_digit(c) ==> r == Option::Some(digit_val(c) as u8),
        !is_digit(c) ==> r is None,
{
    match c {
        '0' => Option::Some(0),
        '1' => Option::Some(1),
        '2' => Option::Some(2),
        '3' => Option::Some(3),
        '4' => Option::Some(4),
        '5' => Option::Some(5),
        '6' => Option::Some(6),
        '7' => Option::Some(7),
        '8' => Option::Some(8),
        '9' => Option::Some(9),
        _ => Option::None,
    }
}

/// The characters of a string, as a vector.
pub fn str_to_chars(s: &str) -> (r: Vec<char>)
    ensures
        r@ == s@,
{
    let n = s.unicode_len();
    let mut out: Vec<char> = Vec::new();
    let mut i: usize = 0;
    while i < n
        invariant
            i <= n,
            n == s@.len(),
            out@ == s@.take(i as int),
        decreases n - i,
    {
        let c = s.get_char(i);
        out.push(c);
        proof {
            assert(out@ =~= s@.take(i as int + 1));
        }
        i = i + 1;
    }
    proof {
        assert(s@.take(n as int) =~= s@);
    }
    out
}

/// Relies on `String`'s `FromIterator` over `char`: collecting characters
/// builds the string of exactly those characters, in order.
#[verifier::external_body]
pub fn chars_to_string(v: &Vec<char>) -> (s: String)
    ensures
        s@ == v@,
{
    v.iter().collect()
}

/// Relies on `char::from_u32`: it returns the character with the given
/// code exactly when the code is a Unicode scalar value (not a surrogate,
/// and at most 0x10FFFF).
#[verifier::external_body]
pub fn char_from_u32(u: u32) -> (r: Option<char>)
    ensures
        (u < 0xD800 || (0xDFFF < u && u <= 0x10FFFF)) ==> (r is Some && r.unwrap() as u32 == u),
        !(u < 0xD800 || (0xDFFF < u && u <= 0x10FFFF)) ==> r is None,
{
    char::from_u32(u)
}

} // verus!
