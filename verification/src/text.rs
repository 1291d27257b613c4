use vstd::prelude::*;
use vstd::utf8::encode_utf8;

verus! {

/// `b` is an ASCII decimal digit.
pub open spec fn is_digit(b: u8) -> bool {
    48 <= b <= 57
}

/// The number that a string of decimal digits spells.
pub open spec fn digits_value(s: Seq<u8>) -> nat
    decreases s.len(),
{
    if s.len() == 0 {
        0
    } else {
        digits_value(s.drop_last()) * 10 + (s.last() - 48) as nat
    }
}

/// Every byte of `s` is a decimal digit.
pub open spec fn all_digits(s: Seq<u8>) -> bool {
    forall|i: int| 0 <= i < s.len() ==> is_digit(#[trigger] s[i])
}

/// `s` without its leading `+`, if it has one.
pub open spec fn unsigned_body(s: Seq<u8>) -> Seq<u8> {
    if s.len() > 0 && s[0] == 43 {
        s.drop_first()
    } else {
        s
    }
}

/// The text of a `usize` as `usize::from_str` reads it: an optional `+`, then one or
/// more decimal digits whose value fits in a `usize`. `None` for any other text.
pub open spec fn usize_literal(s: Seq<u8>) -> Option<usize> {
    let body = unsigned_body(s);
    if body.len() > 0 && all_digits(body) && digits_value(body) <= usize::MAX {
        Some(digits_value(body) as usize)
    } else {
        None
    }
}

/// The index of the first space in `s` at or after `from`, or the length of `s` if
/// there is none.
pub open spec fn next_space(s: Seq<u8>, from: int) -> int
    decreases s.len() - from,
{
    if from >= s.len() {
        s.len() as int
    } else if s[from] == 32 {
        from
    } else {
        next_space(s, from + 1)
    }
}

/// The text before the first space of a line.
pub open spec fn first_field(s: Seq<u8>) -> Seq<u8> {
    s.subrange(0, next_space(s, 0))
}

/// The line holds a space.
pub open spec fn has_second_field(s: Seq<u8>) -> bool {
    next_space(s, 0) < s.len()
}

/// The text between the first and the second space of a line (or its end).
pub open spec fn second_field(s: Seq<u8>) -> Seq<u8> {
    s.subrange(next_space(s, 0) + 1, next_space(s, next_space(s, 0) + 1))
}

/// A line can be read as a pair: its first field is a `usize`, and so is its second
/// field where it has one.
pub open spec fn pair_line_readable(s: Seq<u8>) -> bool {
    &&& usize_literal(first_field(s)) is Some
    &&& has_second_field(s) ==> usize_literal(second_field(s)) is Some
}

/// The pair that a readable line names: `None` when it has a single field.
pub open spec fn pair_of_line(s: Seq<u8>) -> Option<(usize, usize)> {
    if has_second_field(s) {
        Some((usize_literal(first_field(s))->0, usize_literal(second_field(s))->0))
    } else {
        None
    }
}

proof fn lemma_next_space(s: Seq<u8>, from: int)
    requires
        0 <= from <= s.len(),
    ensures
        from <= next_space(s, from) <= s.len(),
        next_space(s, from) < s.len() ==> s[next_space(s, from)] == 32,
        forall|k: int| from <= k < next_space(s, from) ==> s[k] != 32,
    decreases s.len() - from,
{
    if from < s.len() && s[from] != 32 {
        lemma_next_space(s, from + 1);
    }
}

/// The index of the first space in `s` at or after `from`, or the length of `s`.
pub(crate) fn find_space(s: &[u8], from: usize) -> (r: usize)
    requires
        from <= s@.len(),
    ensures
        r == next_space(s@, from as int),
{
    let mut k = from;
    while k < s.len() && s[k] != 32
        invariant
            from <= k <= s@.len(),
            next_space(s@, k as int) == next_space(s@, from as int),
        decreases s@.len() - k,
    {
        k = k + 1;
    }
    k
}

proof fn lemma_digits_grow(s: Seq<u8>, k: int)
    requires
        0 <= k < s.len(),
        is_digit(s[k]),
    ensures
        digits_value(s.subrange(0, k + 1)) == digits_value(s.subrange(0, k)) * 10 + (s[k] - 48) as nat,
{
    assert(s.subrange(0, k + 1).drop_last() =~= s.subrange(0, k));
}

proof fn lemma_digits_monotone(s: Seq<u8>, k: int, m: int)
    requires
        0 <= k <= m <= s.len(),
        forall|i: int| 0 <= i < s.len() ==> is_digit(#[trigger] s[i]),
    ensures
        digits_value(s.subrange(0, k)) <= digits_value(s.subrange(0, m)),
    decreases m - k,
{
    if k < m {
        lemma_digits_monotone(s, k, m - 1);
        lemma_digits_grow(s, m - 1);
    }
}

/// A run of digits whose first `k` digits already exceed `usize::MAX` is no `usize`.
proof fn lemma_prefix_too_big(body: Seq<u8>, k: int)
    requires
        0 <= k <= body.len(),
        digits_value(body.subrange(0, k)) > usize::MAX,
    ensures
        !(all_digits(body) && digits_value(body) <= usize::MAX),
{
    if all_digits(body) {
        lemma_digits_monotone(body, k, body.len() as int);
        assert(body.subrange(0, body.len() as int) =~= body);
    }
}

proof fn lemma_not_all_digits(text: Seq<u8>, body: Seq<u8>, j: int)
    requires
        body == unsigned_body(text),
        0 <= j < body.len(),
        !is_digit(body[j]),
    ensures
        usize_literal(text) is None,
{
}

/// Reads `s[start..end]` as `usize::from_str` would.
pub(crate) fn parse_usize_range(s: &[u8], start: usize, end: usize) -> (r: Option<usize>)
    requires
        start <= end <= s@.len(),
    ensures
        r == usize_literal(s@.subrange(start as int, end as int)),
{
    let ghost text = s@.subrange(start as int, end as int);
    let mut body_start = start;
    if body_start < end && s[body_start] == 43 {
        body_start = body_start + 1;
    }
    let ghost body = s@.subrange(body_start as int, end as int);
    assert(body =~= unsigned_body(text));
    if body_start == end {
        return None;
    }
    let mut value: usize = 0;
    let mut k = body_start;
    while k < end
        invariant
            start <= body_start <= k <= end <= s@.len(),
            body_start < end,
            body == s@.subrange(body_start as int, end as int),
            body == unsigned_body(text),
            text == s@.subrange(start as int, end as int),
            forall|i: int| 0 <= i < k - body_start ==> is_digit(#[trigger] body[i]),
            value == digits_value(body.subrange(0, k - body_start)),
        decreases end - k,
    {
        let b = s[k];
        let ghost j = k - body_start;
        if b < 48 || b > 57 {
            proof {
                assert(!is_digit(body[j]));
                lemma_not_all_digits(text, body, j);
            }
            return None;
        }
        proof {
            lemma_digits_grow(body, j);
        }
        match value.checked_mul(10) {
            Some(v) => match v.checked_add((b - 48) as usize) {
                Some(w) => {
                    value = w;
                },
                None => {
                    proof {
                        assert(b == body[j]);
                        lemma_prefix_too_big(body, j + 1);
                    }
                    return None;
                },
            },
            None => {
                proof {
                    lemma_prefix_too_big(body, j + 1);
                }
                return None;
            },
        }
        k = k + 1;
    }
    assert(body.subrange(0, body.len() as int) =~= body);
    Some(value)
}

/// Reads `text` as a `usize` the way `usize::from_str` does: `None` where it fails.
pub fn parse_usize(text: &str) -> (r: Option<usize>)
    ensures
        r == usize_literal(encode_utf8(text@)),
{
    let bytes = text.as_bytes();
    assert(bytes@.subrange(0, bytes@.len() as int) =~= bytes@);
    parse_usize_range(bytes, 0, bytes.len())
}

pub(crate) proof fn lemma_fields(s: Seq<u8>)
    ensures
        0 <= next_space(s, 0) <= s.len(),
        has_second_field(s) ==> next_space(s, 0) + 1 <= next_space(s, next_space(s, 0) + 1) <= s.len(),
{
    lemma_next_space(s, 0);
    if has_second_field(s) {
        lemma_next_space(s, next_space(s, 0) + 1);
    }
}

/// Whether `read_usize_pair` can read `line`: its first field is a `usize`, and so is
/// its second where there is one.
pub fn pair_line_is_readable(line: &str) -> (r: bool)
    ensures
        r == pair_line_readable(encode_utf8(line@)),
{
    let bytes = line.as_bytes();
    let ghost s = bytes@;
    proof {
        lemma_fields(s);
    }
    let first_end = find_space(bytes, 0);
    if parse_usize_range(bytes, 0, first_end).is_none() {
        return false;
    }
    if first_end == bytes.len() {
        return true;
    }
    let second_end = find_space(bytes, first_end + 1);
    parse_usize_range(bytes, first_end + 1, second_end).is_some()
}

/// The decimal digits of `v`, as `{}` writes a `usize`: no sign, no leading zeros.
pub open spec fn decimal_text(v: nat) -> Seq<u8>
    decreases v,
{
    if v < 10 {
        seq![(48 + v) as u8]
    } else {
        decimal_text(v / 10).push((48 + v % 10) as u8)
    }
}

/// A line naming the pair `a b`, as `{} {}` writes it.
pub open spec fn pair_text(a: usize, b: usize) -> Seq<u8> {
    decimal_text(a as nat) + seq![32u8] + decimal_text(b as nat)
}

proof fn lemma_decimal(v: nat)
    ensures
        decimal_text(v).len() > 0,
        all_digits(decimal_text(v)),
        digits_value(decimal_text(v)) == v,
    decreases v,
{
    let s = decimal_text(v);
    if v < 10 {
        assert(s.drop_last() =~= Seq::<u8>::empty());
        assert(s.last() == 48 + v);
        assert(digits_value(s.drop_last()) == 0);
        assert(digits_value(s) == v);
    } else {
        lemma_decimal(v / 10);
        assert(s.drop_last() =~= decimal_text(v / 10));
        assert(0 <= v % 10 < 10);
        assert(s.last() == 48 + v % 10);
        assert(v == (v / 10) * 10 + v % 10) by (nonlinear_arith);
        assert(digits_value(s) == digits_value(decimal_text(v / 10)) * 10 + (s.last() - 48) as nat);
        assert(digits_value(s) == v);
    }
}

proof fn lemma_next_space_at(s: Seq<u8>, from: int, m: int)
    requires
        0 <= from <= m <= s.len(),
        forall|k: int| from <= k < m ==> s[k] != 32,
        m < s.len() ==> s[m] == 32,
    ensures
        next_space(s, from) == m,
    decreases m - from,
{
    if from < m {
        lemma_next_space_at(s, from + 1, m);
    }
}

/// Every `usize` written in decimal reads back as itself.
pub proof fn law_usize_round_trip(v: usize)
    ensures
        usize_literal(decimal_text(v as nat)) == Some(v),
{
    let d = decimal_text(v as nat);
    lemma_decimal(v as nat);
    assert(is_digit(d[0]));
    assert(unsigned_body(d) == d);
}

/// Writing a pair as `a b` and reading the line back gives the pair: the line is
/// readable and names `(a, b)`.
pub proof fn law_pair_round_trip(a: usize, b: usize)
    ensures
        pair_line_readable(pair_text(a, b)),
        pair_of_line(pair_text(a, b)) == Some((a, b)),
{
    let da = decimal_text(a as nat);
    let db = decimal_text(b as nat);
    let s = pair_text(a, b);
    lemma_decimal(a as nat);
    lemma_decimal(b as nat);
    law_usize_round_trip(a);
    law_usize_round_trip(b);
    let la = da.len() as int;
    assert forall|k: int| 0 <= k < la implies s[k] != 32 by {
        assert(s[k] == da[k]);
        assert(is_digit(da[k]));
    }
    lemma_next_space_at(s, 0, la);
    assert forall|k: int| la + 1 <= k < s.len() implies s[k] != 32 by {
        assert(s[k] == db[k - la - 1]);
        assert(is_digit(db[k - la - 1]));
    }
    lemma_next_space_at(s, la + 1, s.len() as int);
    assert(first_field(s) =~= da);
    assert(second_field(s) =~= db);
}

}
