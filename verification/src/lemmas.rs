use vstd::prelude::*;
use crate::classifier::is_digit;
use crate::error::ParseError;
use crate::grammar::{
    digit_at, digits_len, exponent_len, fraction_len, holds, is_number, number_len,
    key_index, whitespace_len, is_whitespace, whole_len,
};
use crate::value::Tree;

verus! {

/// `a` from `p` and `b` from `q` hold the same `n` characters.
pub open spec fn same_run(a: Seq<char>, p: int, b: Seq<char>, q: int, n: int) -> bool {
    &&& 0 <= n
    &&& 0 <= p && p + n <= a.len()
    &&& 0 <= q && q + n <= b.len()
    &&& a.subrange(p, p + n) == b.subrange(q, q + n)
}

/// The `k`-th characters of two runs that are the same are the same.
pub proof fn lemma_same_run_at(a: Seq<char>, p: int, b: Seq<char>, q: int, n: int, k: int)
    requires
        same_run(a, p, b, q, n),
        0 <= k < n,
    ensures
        a[p + k] == b[q + k],
{
    assert(a.subrange(p, p + n)[k] == b.subrange(q, q + n)[k]);
}

/// A part of two runs that are the same is the same in both.
pub proof fn lemma_same_run_part(
    a: Seq<char>,
    p: int,
    b: Seq<char>,
    q: int,
    n: int,
    i: int,
    m: int,
)
    requires
        same_run(a, p, b, q, n),
        0 <= i,
        0 <= m,
        i + m <= n,
    ensures
        same_run(a, p + i, b, q + i, m),
{
    let part_a = a.subrange(p + i, p + i + m);
    let part_b = b.subrange(q + i, q + i + m);
    assert forall|k: int| 0 <= k < m implies part_a[k] == part_b[k] by {
        lemma_same_run_at(a, p, b, q, n, i + k);
    }
    assert(part_a =~= part_b);
}

/// No number that ends just before `at` could go on there.
pub open spec fn number_stops(text: Seq<char>, at: int) -> bool {
    0 <= at < text.len() ==> !is_digit(text[at]) && text[at] != '.' && text[at] != 'e' && text[at]
        != 'E'
}

/// A run of digits lies inside the text, holds digits only and is followed
/// by none.
pub proof fn lemma_digits_run(text: Seq<char>, from: int)
    ensures
        !digit_at(text, from + digits_len(text, from)),
        digits_len(text, from) > 0 ==> 0 <= from && from + digits_len(text, from) <= text.len(),
        forall|at: int| from <= at < from + digits_len(text, from) ==> digit_at(text, at),
    decreases text.len() - from,
{
    if digit_at(text, from) {
        lemma_digits_run(text, from + 1);
    }
}

/// A run of digits is as long in any text that holds the same characters and
/// no digit behind them.
pub proof fn lemma_digits_transfer(a: Seq<char>, p: int, b: Seq<char>, q: int)
    requires
        same_run(a, p, b, q, digits_len(a, p) as int),
        !digit_at(b, q + digits_len(a, p)),
    ensures
        digits_len(b, q) == digits_len(a, p),
    decreases digits_len(a, p),
{
    if digit_at(a, p) {
        let n = digits_len(a, p) as int;
        lemma_same_run_at(a, p, b, q, n, 0);
        lemma_same_run_part(a, p, b, q, n, 1, n - 1);
        lemma_digits_transfer(a, p + 1, b, q + 1);
    }
}

/// The fraction of a number is the same in any text that holds the same
/// characters and nothing behind them that it could go on with.
pub proof fn lemma_fraction_transfer(a: Seq<char>, p: int, b: Seq<char>, q: int, n: int)
    requires
        fraction_len(a, p) == Ok::<nat, ParseError>(n as nat),
        same_run(a, p, b, q, n),
        !digit_at(b, q + n),
        n == 0 ==> !holds(b, q, '.'),
    ensures
        fraction_len(b, q) == Ok::<nat, ParseError>(n as nat),
{
    lemma_digits_run(a, p + 1);
    if holds(a, p, '.') {
        lemma_same_run_at(a, p, b, q, n, 0);
        lemma_same_run_at(a, p, b, q, n, 1);
        lemma_same_run_part(a, p, b, q, n, 1, n - 1);
        lemma_digits_transfer(a, p + 1, b, q + 1);
    }
}

/// The exponent of a number is the same in any text that holds the same
/// characters and nothing behind them that it could go on with.
pub proof fn lemma_exponent_transfer(a: Seq<char>, p: int, b: Seq<char>, q: int, n: int)
    requires
        exponent_len(a, p) == Ok::<nat, ParseError>(n as nat),
        same_run(a, p, b, q, n),
        !digit_at(b, q + n),
        n == 0 ==> !holds(b, q, 'e') && !holds(b, q, 'E'),
    ensures
        exponent_len(b, q) == Ok::<nat, ParseError>(n as nat),
{
    let sign: int = if holds(a, p + 1, '+') || holds(a, p + 1, '-') { 1 } else { 0 };
    lemma_digits_run(a, p + 1 + sign);
    if holds(a, p, 'e') || holds(a, p, 'E') {
        lemma_same_run_at(a, p, b, q, n, 0);
        lemma_same_run_at(a, p, b, q, n, 1);
        lemma_same_run_at(a, p, b, q, n, 1 + sign);
        lemma_same_run_part(a, p, b, q, n, 1 + sign, n - 1 - sign);
        lemma_digits_transfer(a, p + 1 + sign, b, q + 1 + sign);
    }
}

/// The sign and the digits before the fraction are the same in any text that
/// holds the same characters and no digit behind them.
pub proof fn lemma_whole_transfer(a: Seq<char>, p: int, b: Seq<char>, q: int, n: int)
    requires
        whole_len(a, p) == Ok::<nat, ParseError>(n as nat),
        same_run(a, p, b, q, n),
        !digit_at(b, q + n),
    ensures
        whole_len(b, q) == Ok::<nat, ParseError>(n as nat),
{
    let sign: int = if holds(a, p, '-') { 1 } else { 0 };
    lemma_digits_run(a, p + sign);
    lemma_same_run_at(a, p, b, q, n, 0);
    lemma_same_run_at(a, p, b, q, n, sign);
    lemma_same_run_part(a, p, b, q, n, sign, n - sign);
    lemma_digits_transfer(a, p + sign, b, q + sign);
    if sign + 1 < n {
        lemma_same_run_at(a, p, b, q, n, sign + 1);
    }
}

/// A number of `a` at `p` is a number of `b` at `q` where `b` holds the same
/// characters there and nothing behind them that a number could go on with.
pub proof fn lemma_number_transfer(a: Seq<char>, p: int, b: Seq<char>, q: int, n: int)
    requires
        number_len(a, p) == Ok::<nat, ParseError>(n as nat),
        same_run(a, p, b, q, n),
        number_stops(b, q + n),
    ensures
        number_len(b, q) == Ok::<nat, ParseError>(n as nat),
{
    let sign: int = if holds(a, p, '-') { 1 } else { 0 };
    let head = whole_len(a, p)->Ok_0 as int;
    let fraction = fraction_len(a, p + head)->Ok_0 as int;
    let exponent = exponent_len(a, p + head + fraction)->Ok_0 as int;
    assert(n == head + fraction + exponent);
    lemma_digits_run(a, p + sign);
    lemma_same_run_part(a, p, b, q, n, 0, head);
    lemma_same_run_part(a, p, b, q, n, head, fraction);
    lemma_same_run_part(a, p, b, q, n, head + fraction, exponent);
    if head < n {
        lemma_same_run_at(a, p, b, q, n, head);
    }
    if head + fraction < n {
        lemma_same_run_at(a, p, b, q, n, head + fraction);
    }
    lemma_digits_run(a, p + head + 1);
    assert(!digit_at(b, q + head));
    assert(!digit_at(b, q + head + fraction));
    lemma_whole_transfer(a, p, b, q, head);
    lemma_fraction_transfer(a, p + head, b, q + head, fraction);
    lemma_exponent_transfer(a, p + head + fraction, b, q + head + fraction, exponent);
}

/// A number cut out of its text is a number by itself.
pub proof fn lemma_number_alone(text: Seq<char>, from: int, n: nat)
    requires
        number_len(text, from) == Ok::<nat, ParseError>(n),
    ensures
        0 <= from,
        from + n <= text.len(),
        is_number(text.subrange(from, from + n)),
{
    lemma_number_inside(text, from, n);
    let alone = text.subrange(from, from + n);
    assert(alone.subrange(0, n as int) =~= alone);
    lemma_number_transfer(text, from, alone, 0, n as int);
}

/// A number lies inside its text.
pub proof fn lemma_number_inside(text: Seq<char>, from: int, n: nat)
    requires
        number_len(text, from) == Ok::<nat, ParseError>(n),
    ensures
        0 <= from,
        0 < n,
        from + n <= text.len(),
{
    let sign: int = if holds(text, from, '-') { 1 } else { 0 };
    let whole = whole_len(text, from)->Ok_0 as int;
    let fraction = fraction_len(text, from + whole)->Ok_0 as int;
    let mark = from + whole + fraction;
    let exponent_sign: int = if holds(text, mark + 1, '+') || holds(text, mark + 1, '-') {
        1
    } else {
        0
    };
    lemma_digits_run(text, from + sign);
    lemma_digits_run(text, from + whole + 1);
    lemma_digits_run(text, mark + 1 + exponent_sign);
}

/// A run of whitespace lies inside the text and is followed by none.
pub proof fn lemma_whitespace_run(text: Seq<char>, from: int)
    ensures
        whitespace_len(text, from + whitespace_len(text, from)) == 0,
        whitespace_len(text, from) > 0 ==> 0 <= from && from + whitespace_len(text, from)
            <= text.len(),
    decreases text.len() - from,
{
    if 0 <= from < text.len() && is_whitespace(text[from]) {
        lemma_whitespace_run(text, from + 1);
    }
}

/// `key_index` is the first place at which the key stands.
pub proof fn lemma_key_index(members: Seq<(Seq<char>, Tree)>, key: Seq<char>, at: int)
    requires
        0 <= at <= members.len(),
        forall|i: int| 0 <= i < at ==> (#[trigger] members[i]).0 != key,
        at < members.len() ==> members[at].0 == key,
    ensures
        key_index(members, key) == at,
    decreases members.len(),
{
    if members.len() > 0 {
        let front = members.drop_last();
        let to = if at < front.len() { at } else { front.len() as int };
        assert forall|i: int| 0 <= i < to implies (#[trigger] front[i]).0 != key by {
            assert(front[i] == members[i]);
        }
        assert(to < front.len() ==> front[to] == members[to]);
        lemma_key_index(front, key, to);
    }
}

} // verus!
