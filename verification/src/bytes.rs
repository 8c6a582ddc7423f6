//! Byte strings: searching, splitting, trimming and decimal numbers.
//!
//! Every executable function here comes with a specification over `Seq<u8>`,
//! which the rest of the crate builds its own specifications from.

use vstd::prelude::*;
use vstd::slice::slice_to_vec;
use vstd::string::StringSliceAdditionalSpecFns;

verus! {

pub const LF: u8 = 0x0a;

pub const CR: u8 = 0x0d;

pub const SPACE: u8 = 0x20;

pub const COLON: u8 = 0x3a;

pub const QUESTION: u8 = 0x3f;

pub const AMPERSAND: u8 = 0x26;

pub const EQUALS: u8 = 0x3d;

pub const SLASH: u8 = 0x2f;

pub const COMMA: u8 = 0x2c;

/// ASCII whitespace: space, horizontal tab, line feed, form feed, carriage return.
pub open spec fn is_whitespace(b: u8) -> bool {
    b == 0x20 || b == 0x09 || b == 0x0a || b == 0x0c || b == 0x0d
}

/// An ASCII decimal digit.
pub open spec fn is_digit(b: u8) -> bool {
    0x30 <= b <= 0x39
}

/// An ASCII letter or decimal digit.
pub open spec fn is_alphanumeric(b: u8) -> bool {
    is_digit(b) || (0x41 <= b <= 0x5a) || (0x61 <= b <= 0x7a)
}

/// `i` is where `b` first occurs in `s`, or the length of `s` if it never does.
pub open spec fn is_position(s: Seq<u8>, b: u8, i: int) -> bool {
    &&& 0 <= i <= s.len()
    &&& forall|j: int| 0 <= j < i ==> s[j] != b
    &&& i < s.len() ==> s[i] == b
}

/// Where `b` first occurs in `s`, or the length of `s` if it never does.
pub open spec fn position(s: Seq<u8>, b: u8) -> int {
    choose|i: int| is_position(s, b, i)
}

/// There is exactly one index that `is_position` accepts, and `position` is it.
pub proof fn lemma_position(s: Seq<u8>, b: u8, i: int)
    requires
        is_position(s, b, i),
    ensures
        position(s, b) == i,
{
    let p = position(s, b);
    assert(is_position(s, b, p));
    if p < i {
        assert(s[p] != b);
    } else if i < p {
        assert(s[i] != b);
    }
}

/// `position` always names an index that `is_position` accepts.
pub proof fn lemma_position_exists(s: Seq<u8>, b: u8)
    ensures
        is_position(s, b, position(s, b)),
    decreases s.len(),
{
    if s.len() == 0 {
        assert(is_position(s, b, 0));
    } else if s[0] == b {
        assert(is_position(s, b, 0));
    } else {
        let rest = s.drop_first();
        lemma_position_exists(rest, b);
        let p = position(rest, b);
        assert forall|j: int| 0 <= j < p + 1 implies s[j] != b by {
            if j > 0 {
                assert(rest[j - 1] == s[j]);
            }
        }
        if p + 1 < s.len() {
            assert(rest[p] == s[p + 1]);
        }
        assert(is_position(s, b, p + 1));
    }
}

/// Finds the first `b` in `s` at or after `from`.
pub fn find(s: &[u8], from: usize, b: u8) -> (at: usize)
    requires
        from <= s.len(),
    ensures
        at == from + position(s@.skip(from as int), b),
        from <= at <= s.len(),
{
    let mut i: usize = from;
    while i < s.len() && s[i] != b
        invariant
            from <= i <= s.len(),
            forall|j: int| from <= j < i ==> s@[j] != b,
        decreases s.len() - i,
    {
        i += 1;
    }
    proof {
        let tail = s@.skip(from as int);
        assert forall|j: int| 0 <= j < i - from implies tail[j] != b by {
            assert(tail[j] == s@[from + j]);
        }
        assert(is_position(tail, b, i - from));
        lemma_position(tail, b, i - from);
    }
    i
}

/// An owned copy of `s`.
pub fn to_vec(s: &[u8]) -> (v: Vec<u8>)
    ensures
        v@ == s@,
{
    slice_to_vec(s)
}

/// Appends `s` to `out`.
pub fn append(out: &mut Vec<u8>, s: &[u8])
    ensures
        final(out)@ == old(out)@ + s@,
{
    let mut i: usize = 0;
    while i < s.len()
        invariant
            0 <= i <= s.len(),
            out@ == old(out)@ + s@.take(i as int),
        decreases s.len() - i,
    {
        out.push(s[i]);
        proof {
            assert(s@.take(i + 1) =~= s@.take(i as int).push(s@[i as int]));
            assert(out@ =~= old(out)@ + s@.take(i + 1));
        }
        i += 1;
    }
    proof {
        assert(s@.take(s.len() as int) =~= s@);
    }
}

/// Whether two byte strings are the same.
pub fn equal(a: &[u8], b: &[u8]) -> (same: bool)
    ensures
        same == (a@ == b@),
{
    if a.len() != b.len() {
        return false;
    }
    let mut i: usize = 0;
    while i < a.len()
        invariant
            0 <= i <= a.len(),
            a.len() == b.len(),
            forall|j: int| 0 <= j < i ==> a@[j] == b@[j],
        decreases a.len() - i,
    {
        if a[i] != b[i] {
            assert(a@[i as int] != b@[i as int]);
            return false;
        }
        i += 1;
    }
    assert(a@ =~= b@);
    true
}

/// Whether `s` is the text `word`, byte for byte.
pub fn is_word(s: &[u8], word: &str) -> (same: bool)
    ensures
        same == (s@ == word.spec_bytes()),
{
    equal(s, word.as_bytes())
}

/// The bytes of an optional byte string.
pub open spec fn optional(bytes: Option<Vec<u8>>) -> Option<Seq<u8>> {
    match bytes {
        Some(b) => Some(b@),
        None => None,
    }
}

/// The byte strings of `v`, in order.
pub open spec fn views(v: Seq<Vec<u8>>) -> Seq<Seq<u8>> {
    Seq::new(v.len(), |i: int| v[i]@)
}

/// The pieces of `s` between occurrences of `sep`: one more piece than there
/// are separators, empty pieces included.
pub open spec fn pieces(s: Seq<u8>, sep: u8) -> Seq<Seq<u8>>
    decreases s.len(),
    via pieces_decreases
{
    let i = position(s, sep);
    if i < s.len() {
        seq![s.take(i)] + pieces(s.skip(i + 1), sep)
    } else {
        seq![s]
    }
}

#[via_fn]
proof fn pieces_decreases(s: Seq<u8>, sep: u8) {
    lemma_position_exists(s, sep);
}

/// Splits `s` at every `sep`.
pub fn split(s: &[u8], sep: u8) -> (out: Vec<Vec<u8>>)
    ensures
        views(out@) == pieces(s@, sep),
{
    let mut out: Vec<Vec<u8>> = Vec::new();
    let mut start: usize = 0;
    proof {
        assert(s@.skip(0) =~= s@);
        assert(views(out@) + pieces(s@, sep) =~= pieces(s@, sep));
    }
    loop
        invariant_except_break
            start <= s.len(),
            pieces(s@, sep) == views(out@) + pieces(s@.skip(start as int), sep),
        ensures
            views(out@) == pieces(s@, sep),
        decreases s.len() - start,
    {
        let at = find(s, start, sep);
        let ghost tail = s@.skip(start as int);
        let ghost before = views(out@);
        proof {
            lemma_position_exists(tail, sep);
        }
        out.push(to_vec(&s[start..at]));
        proof {
            assert(s@.subrange(start as int, at as int) =~= tail.take(at - start));
            assert(views(out@) =~= before + seq![tail.take(at - start)]);
        }
        if at == s.len() {
            proof {
                assert(tail.take(at - start) =~= tail);
                assert(pieces(tail, sep) =~= seq![tail]);
            }
            break;
        }
        proof {
            assert(tail.skip(at - start + 1) =~= s@.skip(at + 1));
            assert(pieces(tail, sep) =~= seq![tail.take(at - start)] + pieces(
                s@.skip(at + 1),
                sep,
            ));
            assert(pieces(s@, sep) =~= views(out@) + pieces(s@.skip(at + 1), sep));
        }
        start = at + 1;
    }
    out
}

/// `i` is where the first whitespace byte of `s` stands, or the length of `s`.
pub open spec fn is_word_end(s: Seq<u8>, i: int) -> bool {
    &&& 0 <= i <= s.len()
    &&& forall|j: int| 0 <= j < i ==> !is_whitespace(s[j])
    &&& i < s.len() ==> is_whitespace(s[i])
}

/// How many bytes stand before the first whitespace byte of `s`.
pub open spec fn word_end(s: Seq<u8>) -> int {
    choose|i: int| is_word_end(s, i)
}

/// There is exactly one index that `is_word_end` accepts, and `word_end` is it.
pub proof fn lemma_word_end(s: Seq<u8>, i: int)
    requires
        is_word_end(s, i),
    ensures
        word_end(s) == i,
{
    let p = word_end(s);
    assert(is_word_end(s, p));
    if p < i {
        assert(!is_whitespace(s[p]));
    } else if i < p {
        assert(!is_whitespace(s[i]));
    }
}

/// The maximal runs of bytes of `s` that hold no whitespace, in order.
pub open spec fn words(s: Seq<u8>) -> Seq<Seq<u8>>
    decreases s.len(),
    via words_decreases
{
    if s.len() == 0 {
        Seq::empty()
    } else if is_whitespace(s[0]) {
        words(s.drop_first())
    } else {
        seq![s.take(word_end(s))] + words(s.skip(word_end(s)))
    }
}

#[via_fn]
proof fn words_decreases(s: Seq<u8>) {
    if s.len() > 0 && !is_whitespace(s[0]) {
        lemma_word_end_exists(s);
        assert(word_end(s) > 0);
    }
}

/// `word_end` always names an index that `is_word_end` accepts.
pub proof fn lemma_word_end_exists(s: Seq<u8>)
    ensures
        is_word_end(s, word_end(s)),
    decreases s.len(),
{
    if s.len() == 0 || is_whitespace(s[0]) {
        assert(is_word_end(s, 0));
    } else {
        let rest = s.drop_first();
        lemma_word_end_exists(rest);
        let p = word_end(rest);
        assert forall|j: int| 0 <= j < p + 1 implies !is_whitespace(s[j]) by {
            if j > 0 {
                assert(rest[j - 1] == s[j]);
            }
        }
        if p + 1 < s.len() {
            assert(rest[p] == s[p + 1]);
        }
        assert(is_word_end(s, p + 1));
    }
}

/// Whether `b` is ASCII whitespace.
pub fn whitespace(b: u8) -> (yes: bool)
    ensures
        yes == is_whitespace(b),
{
    b == 0x20 || b == 0x09 || b == 0x0a || b == 0x0c || b == 0x0d
}

/// Splits `s` into its words: what stands between runs of whitespace.
pub fn split_whitespace(s: &[u8]) -> (out: Vec<Vec<u8>>)
    ensures
        views(out@) == words(s@),
{
    let mut out: Vec<Vec<u8>> = Vec::new();
    let mut i: usize = 0;
    proof {
        assert(s@.skip(0) =~= s@);
        assert(views(out@) + words(s@) =~= words(s@));
    }
    while i < s.len()
        invariant
            i <= s.len(),
            words(s@) == views(out@) + words(s@.skip(i as int)),
        decreases s.len() - i,
    {
        let ghost tail = s@.skip(i as int);
        if whitespace(s[i]) {
            proof {
                assert(tail.drop_first() =~= s@.skip(i + 1));
            }
            i += 1;
        } else {
            let mut end: usize = i + 1;
            while end < s.len() && !whitespace(s[end])
                invariant
                    i < end <= s.len(),
                    forall|j: int| i <= j < end ==> !is_whitespace(s@[j]),
                decreases s.len() - end,
            {
                end += 1;
            }
            let ghost before = views(out@);
            out.push(to_vec(&s[i..end]));
            proof {
                assert forall|j: int| 0 <= j < end - i implies !is_whitespace(tail[j]) by {
                    assert(tail[j] == s@[i + j]);
                }
                assert(is_word_end(tail, end - i));
                lemma_word_end(tail, end - i);
                assert(s@.subrange(i as int, end as int) =~= tail.take(end - i));
                assert(tail.skip(end - i) =~= s@.skip(end as int));
                assert(views(out@) =~= before + seq![tail.take(end - i)]);
                assert(words(tail) =~= seq![tail.take(end - i)] + words(s@.skip(end as int)));
                assert(words(s@) =~= views(out@) + words(s@.skip(end as int)));
            }
            i = end;
        }
    }
    proof {
        assert(s@.skip(i as int).len() == 0);
        assert(words(s@) =~= views(out@));
    }
    out
}

/// `s` without the whitespace at its start.
pub open spec fn trimmed_start(s: Seq<u8>) -> Seq<u8>
    decreases s.len(),
{
    if s.len() > 0 && is_whitespace(s[0]) {
        trimmed_start(s.drop_first())
    } else {
        s
    }
}

/// `s` without the whitespace at its end.
pub open spec fn trimmed_end(s: Seq<u8>) -> Seq<u8>
    decreases s.len(),
{
    if s.len() > 0 && is_whitespace(s.last()) {
        trimmed_end(s.drop_last())
    } else {
        s
    }
}

/// `s` without the whitespace at either end.
pub open spec fn trimmed(s: Seq<u8>) -> Seq<u8> {
    trimmed_end(trimmed_start(s))
}

/// Removes the whitespace at both ends of `s`.
pub fn trim(s: &[u8]) -> (out: &[u8])
    ensures
        out@ == trimmed(s@),
{
    let mut from: usize = 0;
    proof {
        assert(s@.skip(0) =~= s@);
    }
    while from < s.len() && whitespace(s[from])
        invariant
            from <= s.len(),
            trimmed_start(s@) == trimmed_start(s@.skip(from as int)),
        decreases s.len() - from,
    {
        proof {
            assert(s@.skip(from as int).drop_first() =~= s@.skip(from + 1));
        }
        from += 1;
    }
    let ghost rest = s@.skip(from as int);
    assert(trimmed_start(s@) == rest);
    let mut to: usize = s.len();
    proof {
        assert(rest.take(s.len() - from) =~= rest);
    }
    while to > from && whitespace(s[to - 1])
        invariant
            from <= to <= s.len(),
            rest == s@.skip(from as int),
            trimmed_end(rest) == trimmed_end(rest.take(to - from)),
        decreases to,
    {
        proof {
            assert(rest.take(to - from).last() == s@[to - 1]);
            assert(rest.take(to - from).drop_last() =~= rest.take(to - from - 1));
        }
        to -= 1;
    }
    proof {
        assert(rest.take(s.len() - from) =~= rest);
        if to > from {
            assert(rest.take(to - from).last() == s@[to - 1]);
        }
        assert(s@.subrange(from as int, to as int) =~= rest.take(to - from));
    }
    &s[from..to]
}

/// Whether `s` is one or more ASCII decimal digits.
pub open spec fn is_digits(s: Seq<u8>) -> bool {
    s.len() > 0 && forall|i: int| 0 <= i < s.len() ==> is_digit(#[trigger] s[i])
}

/// The number that the decimal digits `s` write.
pub open spec fn digits_value(s: Seq<u8>) -> nat
    decreases s.len(),
{
    if s.len() == 0 {
        0
    } else {
        digits_value(s.drop_last()) * 10 + (s.last() - 0x30) as nat
    }
}

/// The digits of a decimal number: `s` itself, or `s` without a plus sign in front.
pub open spec fn unsigned(s: Seq<u8>) -> Seq<u8> {
    if s.len() > 0 && s[0] == 0x2b {
        s.drop_first()
    } else {
        s
    }
}

/// The non-negative number that `s` writes in decimal, with or without a
/// plus sign in front; `None` if `s` is no such number.
pub open spec fn number(s: Seq<u8>) -> Option<nat> {
    if is_digits(unsigned(s)) {
        Some(digits_value(unsigned(s)))
    } else {
        None
    }
}

/// `n` in decimal, without leading zeros.
pub open spec fn decimal(n: nat) -> Seq<u8>
    decreases n,
{
    if n < 10 {
        seq![(0x30 + n) as u8]
    } else {
        decimal(n / 10).push((0x30 + n % 10) as u8)
    }
}

/// Reading back what `decimal` wrote gives the same number.
pub proof fn lemma_decimal_number(n: nat)
    ensures
        is_digits(decimal(n)),
        unsigned(decimal(n)) == decimal(n),
        digits_value(decimal(n)) == n,
        number(decimal(n)) == Some(n),
    decreases n,
{
    let d = decimal(n);
    if n < 10 {
        assert(d.drop_last() =~= Seq::<u8>::empty());
        assert(digits_value(d.drop_last()) == 0);
    } else {
        lemma_decimal_number(n / 10);
        assert(d.drop_last() =~= decimal(n / 10));
        assert(d[0] == decimal(n / 10)[0]);
    }
}

/// Whether `s` writes a non-negative decimal number.
pub fn is_number(s: &[u8]) -> (yes: bool)
    ensures
        yes == number(s@).is_some(),
{
    let start: usize = if s.len() > 0 && s[0] == 0x2b {
        1
    } else {
        0
    };
    let ghost d = unsigned(s@);
    assert(d =~= s@.skip(start as int));
    if start == s.len() {
        return false;
    }
    let mut i: usize = start;
    while i < s.len()
        invariant
            start <= i <= s.len(),
            d == s@.skip(start as int),
            d == unsigned(s@),
            forall|j: int| 0 <= j < i - start ==> is_digit(#[trigger] d[j]),
        decreases s.len() - i,
    {
        assert(d[i - start] == s@[i as int]);
        if !(0x30 <= s[i] && s[i] <= 0x39) {
            assert(!is_digit(d[i - start]));
            return false;
        }
        i += 1;
    }
    true
}

/// Reads the decimal number that `s` writes. `None` if `s` writes no number,
/// or one that a `usize` cannot hold.
pub fn parse_number(s: &[u8]) -> (out: Option<usize>)
    ensures
        out == match number(s@) {
            Some(n) if n <= usize::MAX => Some(n as usize),
            _ => None,
        },
{
    if !is_number(s) {
        return None;
    }
    let start: usize = if s[0] == 0x2b {
        1
    } else {
        0
    };
    let ghost d = unsigned(s@);
    assert(d =~= s@.skip(start as int));
    let mut value: usize = 0;
    let mut i: usize = start;
    proof {
        assert(d.take(0) =~= Seq::<u8>::empty());
    }
    while i < s.len()
        invariant
            start <= i <= s.len(),
            d == s@.skip(start as int),
            d == unsigned(s@),
            is_digits(d),
            value == digits_value(d.take(i - start)),
        decreases s.len() - i,
    {
        assert(d[i - start] == s@[i as int]);
        assert(is_digit(d[i - start]));
        let digit: usize = (s[i] - 0x30) as usize;
        proof {
            let head = d.take(i - start + 1);
            assert(head.drop_last() =~= d.take(i - start));
            assert(head.last() == s@[i as int]);
            assert(digits_value(head) == value * 10 + digit);
            lemma_digits_value_grows(d, i - start + 1);
        }
        if value > usize::MAX / 10 {
            return None;
        }
        let tens: usize = value * 10;
        if tens > usize::MAX - digit {
            return None;
        }
        value = tens + digit;
        i += 1;
    }
    proof {
        assert(d.take(s.len() - start) =~= d);
    }
    Some(value)
}

/// A longer prefix of a digit string writes a number at least as large.
pub proof fn lemma_digits_value_grows(s: Seq<u8>, n: int)
    requires
        0 <= n <= s.len(),
        forall|i: int| 0 <= i < s.len() ==> is_digit(#[trigger] s[i]),
    ensures
        digits_value(s.take(n)) <= digits_value(s),
    decreases s.len() - n,
{
    if n < s.len() {
        let longer = s.take(n + 1);
        assert(longer.drop_last() =~= s.take(n));
        assert(is_digit(s[n]));
        assert(longer.last() == s[n]);
        lemma_digits_value_grows(s, n + 1);
    } else {
        assert(s.take(n) =~= s);
    }
}

/// Appends `n` in decimal to `out`.
pub fn push_decimal(out: &mut Vec<u8>, n: usize)
    ensures
        final(out)@ == old(out)@ + decimal(n as nat),
    decreases n,
{
    if n >= 10 {
        push_decimal(out, n / 10);
    }
    let digit: u8 = (n % 10) as u8;
    out.push(0x30 + digit);
    proof {
        if n >= 10 {
            assert(out@ =~= old(out)@ + decimal(n as nat));
        } else {
            assert(out@ =~= old(out)@ + decimal(n as nat));
        }
    }
}

/// `n` in decimal.
pub fn render_number(n: usize) -> (out: Vec<u8>)
    ensures
        out@ == decimal(n as nat),
{
    let mut out: Vec<u8> = Vec::new();
    push_decimal(&mut out, n);
    assert(out@ =~= decimal(n as nat));
    out
}

/// `i` is where `b` last occurs in `s`.
pub open spec fn is_last_position(s: Seq<u8>, b: u8, i: int) -> bool {
    &&& 0 <= i < s.len()
    &&& s[i] == b
    &&& forall|j: int| i < j < s.len() ==> s[j] != b
}

/// What stands in `s` after the last `b`, for an `s` that holds `b`.
pub open spec fn after_last(s: Seq<u8>, b: u8) -> Seq<u8> {
    s.skip((choose|i: int| is_last_position(s, b, i)) + 1)
}

/// Finds the last `b` in `s`.
pub fn rfind(s: &[u8], b: u8) -> (at: Option<usize>)
    ensures
        match at {
            Some(i) => is_last_position(s@, b, i as int),
            None => !s@.contains(b),
        },
{
    let mut i: usize = s.len();
    while i > 0
        invariant
            i <= s.len(),
            forall|j: int| i <= j < s.len() ==> s@[j] != b,
        decreases i,
    {
        i -= 1;
        if s[i] == b {
            return Some(i);
        }
    }
    None
}

/// What stands after the last `b` in `s`; `None` if `s` holds no `b`.
pub fn suffix_after_last(s: &[u8], b: u8) -> (out: Option<&[u8]>)
    ensures
        match out {
            Some(suffix) => s@.contains(b) && suffix@ == after_last(s@, b),
            None => !s@.contains(b),
        },
{
    match rfind(s, b) {
        Some(i) => {
            proof {
                let k = choose|k: int| is_last_position(s@, b, k);
                assert(is_last_position(s@, b, k));
                if k < i {
                    assert(s@[i as int] != b);
                } else if i < k {
                    assert(s@[k] != b);
                }
                assert(s@[i as int] == b);
            }
            assert(i < s.len());
            Some(&s[i + 1..s.len()])
        },
        None => None,
    }
}

} // verus!
