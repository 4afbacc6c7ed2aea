//! What a search request asks for, put into the forms that the metadata
//! store and the pager work with.

use vstd::prelude::*;

verus! {

/// The character of a decimal digit.
pub open spec fn digit(d: nat) -> char {
    if d == 0 {
        '0'
    } else if d == 1 {
        '1'
    } else if d == 2 {
        '2'
    } else if d == 3 {
        '3'
    } else if d == 4 {
        '4'
    } else if d == 5 {
        '5'
    } else if d == 6 {
        '6'
    } else if d == 7 {
        '7'
    } else if d == 8 {
        '8'
    } else {
        '9'
    }
}

/// The decimal digits of a natural number, without leading zeros.
pub open spec fn digits(n: nat) -> Seq<char>
    decreases n,
{
    if n < 10 {
        seq![digit(n)]
    } else {
        digits(n / 10).push(digit(n % 10))
    }
}

/// An integer written in decimal, with a minus sign where it is negative.
pub open spec fn decimal(n: int) -> Seq<char> {
    if n < 0 {
        seq!['-'] + digits((-n) as nat)
    } else {
        digits(n as nat)
    }
}

/// The numbers of `values` in decimal, with a comma between each two.
pub open spec fn joined(values: Seq<i64>) -> Seq<char>
    decreases values.len(),
{
    if values.len() == 0 {
        Seq::empty()
    } else if values.len() == 1 {
        decimal(values[0] as int)
    } else {
        joined(values.drop_last()) + seq![','] + decimal(values.last() as int)
    }
}

/// The list that the metadata store searches for `,n,`: the numbers of
/// `values` with a comma before, between and behind them. No list where
/// there are no numbers.
pub open spec fn combined(values: Option<Seq<i64>>) -> Option<Seq<char>> {
    match values {
        Some(v) => if v.len() == 0 {
            None
        } else {
            Some(seq![','] + joined(v) + seq![','])
        },
        None => None,
    }
}

/// The numbers of a filter.
pub open spec fn numbers(vec: Option<Vec<i64>>) -> Option<Seq<i64>> {
    match vec {
        Some(values) => Some(values@),
        None => None,
    }
}

/// The characters of a list that may be absent.
pub open spec fn written(list: Option<String>) -> Option<Seq<char>> {
    match list {
        Some(text) => Some(text@),
        None => None,
    }
}

fn digit_char(d: u64) -> (c: char)
    requires
        d < 10,
    ensures
        c == digit(d as nat),
{
    if d == 0 {
        '0'
    } else if d == 1 {
        '1'
    } else if d == 2 {
        '2'
    } else if d == 3 {
        '3'
    } else if d == 4 {
        '4'
    } else if d == 5 {
        '5'
    } else if d == 6 {
        '6'
    } else if d == 7 {
        '7'
    } else if d == 8 {
        '8'
    } else {
        '9'
    }
}

/// Appends the decimal digits of `n` to `text`.
fn push_digits(text: &mut String, n: u64)
    ensures
        final(text)@ == old(text)@ + digits(n as nat),
{
    let mut reversed: Vec<char> = Vec::new();
    let mut rest: u64 = n;
    while rest >= 10
        invariant
            digits(n as nat) == digits(rest as nat) + reversed@.reverse(),
        decreases rest,
    {
        let ghost before = reversed@;
        reversed.push(digit_char(rest % 10));
        proof {
            let low = digit((rest % 10) as nat);
            assert(reversed@.reverse() =~= seq![low] + before.reverse());
            assert(digits(rest as nat) == digits((rest / 10) as nat).push(low));
            assert(digits((rest / 10) as nat).push(low) + before.reverse() =~= digits(
                (rest / 10) as nat,
            ) + (seq![low] + before.reverse()));
        }
        rest = rest / 10;
    }
    text.push(digit_char(rest));
    let mut k: usize = reversed.len();
    while k > 0
        invariant
            k <= reversed.len(),
            digits(n as nat) == digits(rest as nat) + reversed@.reverse(),
            text@ == old(text)@ + digits(rest as nat) + reversed@.reverse().take(
                reversed.len() - k,
            ),
        decreases k,
    {
        k -= 1;
        text.push(reversed[k]);
        proof {
            let r = reversed@.reverse();
            let done = reversed.len() - k - 1;
            assert(r[done] == reversed@[k as int]);
            assert(r.take(done + 1) =~= r.take(done).push(r[done]));
        }
    }
    proof {
        let r = reversed@.reverse();
        assert(r.take(reversed.len() as int) =~= r);
        assert(old(text)@ + digits(rest as nat) + r =~= old(text)@ + (digits(rest as nat) + r));
    }
}

/// Appends `n` in decimal to `text`.
fn push_decimal(text: &mut String, n: i64)
    ensures
        final(text)@ == old(text)@ + decimal(n as int),
{
    if n < 0 {
        text.push('-');
        let magnitude: u64 = if n == i64::MIN {
            9223372036854775808u64
        } else {
            (-n) as u64
        };
        push_digits(text, magnitude);
        assert(old(text)@.push('-') + digits((-n) as nat) =~= old(text)@ + (seq!['-'] + digits(
            (-n) as nat,
        )));
    } else {
        push_digits(text, n as u64);
    }
}

/// Writes the numbers of a filter as the list that the metadata store
/// searches: `,1,2,3,`. A filter that is absent or empty gives no list.
pub fn combine_vec_to_string(vec: &Option<Vec<i64>>) -> (list: Option<String>)
    ensures
        written(list) == combined(numbers(*vec)),
{
    match vec {
        None => None,
        Some(values) => {
            if values.len() == 0 {
                None
            } else {
                let mut text = String::new();
                text.push(',');
                push_decimal(&mut text, values[0]);
                assert(values@.take(1) =~= seq![values@[0]]);
                let mut i: usize = 1;
                while i < values.len()
                    invariant
                        1 <= i <= values.len(),
                        text@ == seq![','] + joined(values@.take(i as int)),
                    decreases values.len() - i,
                {
                    text.push(',');
                    push_decimal(&mut text, values[i]);
                    proof {
                        let longer = values@.take(i + 1);
                        assert(longer.drop_last() =~= values@.take(i as int));
                        assert(longer.last() == values@[i as int]);
                        assert(text@ =~= seq![','] + joined(longer));
                    }
                    i += 1;
                }
                assert(values@.take(i as int) =~= values@);
                text.push(',');
                assert(text@ =~= seq![','] + joined(values@) + seq![',']);
                Some(text)
            }
        },
    }
}

} // verus!
