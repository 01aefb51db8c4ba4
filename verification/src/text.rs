//! Character-level helpers shared by the other modules: conversion between
//! strings and character vectors, whitespace trimming, searching for a
//! character, and decimal rendering of numbers.

use vstd::prelude::*;

verus! {

/// Taken on trust of `String::push` of the standard library, not proved
/// here: after the call the string holds the characters that it held before,
/// in their order, followed by `ch`.
pub assume_specification[ String::push ](s: &mut String, ch: char)
    ensures
        final(s)@ == old(s)@.push(ch),
;

/// The characters of `s`, in order.
pub fn to_chars(s: &str) -> (out: Vec<char>)
    ensures
        out@ == s@,
{
    let mut out: Vec<char> = Vec::new();
    for c in it: s.chars()
        invariant
            it.seq() == s@,
            out@ == it.seq().take(it.index() as int),
    {
        out.push(c);
    }
    out
}

/// Appends the characters `chars[from..to]` to `out`.
pub fn push_range(out: &mut String, chars: &Vec<char>, from: usize, to: usize)
    requires
        from <= to <= chars@.len(),
    ensures
        final(out)@ == old(out)@ + chars@.subrange(from as int, to as int),
{
    let mut i: usize = from;
    while i < to
        invariant
            from <= i <= to <= chars@.len(),
            out@ == old(out)@ + chars@.subrange(from as int, i as int),
        decreases to - i,
    {
        out.push(chars[i]);
        i = i + 1;
    }
}

/// The string made of the characters `chars[from..to]`.
pub fn string_of_range(chars: &Vec<char>, from: usize, to: usize) -> (out: String)
    requires
        from <= to <= chars@.len(),
    ensures
        out@ == chars@.subrange(from as int, to as int),
{
    let mut out = String::new();
    push_range(&mut out, chars, from, to);
    out
}

/// Whether `c` is white space in the sense of Unicode's `White_Space`
/// property, which is what string trimming removes.
pub open spec fn is_space(c: char) -> bool {
    let n = c as u32;
    ||| 0x09 <= n <= 0x0D
    ||| n == 0x20
    ||| n == 0x85
    ||| n == 0xA0
    ||| n == 0x1680
    ||| 0x2000 <= n <= 0x200A
    ||| n == 0x2028
    ||| n == 0x2029
    ||| n == 0x202F
    ||| n == 0x205F
    ||| n == 0x3000
}

/// Executable form of [`is_space`].
pub fn is_space_char(c: char) -> (b: bool)
    ensures
        b == is_space(c),
{
    let n: u32 = c as u32;
    (0x09 <= n && n <= 0x0D) || n == 0x20 || n == 0x85 || n == 0xA0 || n == 0x1680 || (0x2000 <= n
        && n <= 0x200A) || n == 0x2028 || n == 0x2029 || n == 0x202F || n == 0x205F || n == 0x3000
}

/// `s` without its leading white space.
pub open spec fn trim_start(s: Seq<char>) -> Seq<char>
    decreases s.len(),
{
    if s.len() > 0 && is_space(s[0]) {
        trim_start(s.skip(1))
    } else {
        s
    }
}

/// `s` without its trailing white space.
pub open spec fn trim_end(s: Seq<char>) -> Seq<char>
    decreases s.len(),
{
    if s.len() > 0 && is_space(s.last()) {
        trim_end(s.drop_last())
    } else {
        s
    }
}

/// `s` without leading and trailing white space.
pub open spec fn trim(s: Seq<char>) -> Seq<char> {
    trim_end(trim_start(s))
}

/// The bounds of `chars[from..to]` once trimmed of white space at both ends:
/// the start moves past the leading white space, and the end moves back
/// before the trailing white space that is left after that.
pub fn trim_range(chars: &Vec<char>, from: usize, to: usize) -> (r: (usize, usize))
    requires
        from <= to <= chars@.len(),
    ensures
        from <= r.0 <= r.1 <= to,
        chars@.subrange(r.0 as int, r.1 as int) == trim(chars@.subrange(from as int, to as int)),
        to - r.0 == trim_start(chars@.subrange(from as int, to as int)).len(),
{
    let mut a: usize = from;
    while a < to && is_space_char(chars[a])
        invariant
            from <= a <= to <= chars@.len(),
            trim_start(chars@.subrange(from as int, to as int)) == trim_start(
                chars@.subrange(a as int, to as int),
            ),
        decreases to - a,
    {
        assert(chars@.subrange(a as int, to as int).skip(1) =~= chars@.subrange(a + 1, to as int));
        a = a + 1;
    }
    let mut b: usize = to;
    while b > a && is_space_char(chars[b - 1])
        invariant
            a <= b <= to <= chars@.len(),
            trim_end(chars@.subrange(a as int, to as int)) == trim_end(
                chars@.subrange(a as int, b as int),
            ),
        decreases b - a,
    {
        assert(chars@.subrange(a as int, b as int).drop_last() =~= chars@.subrange(
            a as int,
            b - 1,
        ));
        b = b - 1;
    }
    (a, b)
}

/// The position of the first `c` in `s`, or the length of `s` where `c` does
/// not occur in it.
pub open spec fn index_of(s: Seq<char>, c: char) -> nat
    decreases s.len(),
{
    if s.len() == 0 || s[0] == c {
        0
    } else {
        1 + index_of(s.skip(1), c)
    }
}

/// `index_of` stays within the sequence, finds `c` where it stops short of
/// the end, and passes over no `c` on its way.
pub proof fn lemma_index_of(s: Seq<char>, c: char)
    ensures
        index_of(s, c) <= s.len(),
        index_of(s, c) < s.len() ==> s[index_of(s, c) as int] == c,
        forall|j: int| 0 <= j < index_of(s, c) ==> s[j] != c,
    decreases s.len(),
{
    if s.len() > 0 && s[0] != c {
        let rest = s.skip(1);
        lemma_index_of(rest, c);
        assert forall|j: int| 0 <= j < index_of(s, c) implies s[j] != c by {
            if j > 0 {
                assert(s[j] == rest[j - 1]);
            }
        }
    }
}

/// A position that holds `c` wherever it is short of the end, and that no `c`
/// comes before, is the one that `index_of` gives.
pub proof fn lemma_index_of_is(s: Seq<char>, c: char, at: int)
    requires
        0 <= at <= s.len(),
        at < s.len() ==> s[at] == c,
        forall|j: int| 0 <= j < at ==> s[j] != c,
    ensures
        index_of(s, c) == at,
{
    lemma_index_of(s, c);
}

/// The position of the first `c` in `chars[from..to]`, counted from the start
/// of `chars`, or `to` where there is none.
pub fn find_char(chars: &Vec<char>, from: usize, to: usize, c: char) -> (at: usize)
    requires
        from <= to <= chars@.len(),
    ensures
        from <= at <= to,
        at - from == index_of(chars@.subrange(from as int, to as int), c),
{
    let mut i: usize = from;
    while i < to && chars[i] != c
        invariant
            from <= i <= to <= chars@.len(),
            forall|j: int| from <= j < i ==> chars@[j] != c,
        decreases to - i,
    {
        i = i + 1;
    }
    proof {
        lemma_index_of_is(chars@.subrange(from as int, to as int), c, i - from);
    }
    i
}

/// The character of the decimal digit `d`.
pub open spec fn digit(d: nat) -> char
    recommends
        d < 10,
{
    ((48 + d) as u8) as char
}

/// The decimal numeral of `n`, without leading zeros.
pub open spec fn decimal(n: nat) -> Seq<char>
    decreases n,
{
    if n < 10 {
        seq![digit(n)]
    } else {
        decimal(n / 10).push(digit(n % 10))
    }
}

/// The numeral of `n` as the front part of a longer numeral: no digits at
/// all where `n` is 0.
pub open spec fn leading_digits(n: nat) -> Seq<char> {
    if n == 0 {
        Seq::empty()
    } else {
        decimal(n)
    }
}

/// A numeral is the numeral of its tenth, if that is not 0, and its last
/// digit.
pub proof fn lemma_decimal_step(n: nat)
    ensures
        decimal(n) == leading_digits(n / 10).push(digit(n % 10)),
{
    if n < 10 {
        assert(n / 10 == 0);
        assert(n % 10 == n);
        assert(decimal(n) =~= Seq::<char>::empty().push(digit(n)));
    }
}

/// Executable form of [`digit`].
pub fn digit_char(d: u32) -> (c: char)
    requires
        d < 10,
    ensures
        c == digit(d as nat),
{
    let code: u8 = 48 + (d as u8);
    code as char
}

/// Appends the decimal numeral of `n` to `out`.
pub fn push_decimal(out: &mut String, n: u32)
    ensures
        final(out)@ == old(out)@ + decimal(n as nat),
{
    let mut digits: Vec<char> = Vec::new();
    digits.push(digit_char(n % 10));
    let mut rest: u32 = n / 10;
    let ghost mut tail: Seq<char> = seq![digit((n % 10) as nat)];
    proof {
        lemma_decimal_step(n as nat);
    }
    while rest > 0
        invariant
            decimal(n as nat) == leading_digits(rest as nat) + tail,
            tail.len() == digits@.len(),
            forall|k: int| 0 <= k < tail.len() ==> tail[k] == digits@[digits@.len() - 1 - k],
        decreases rest,
    {
        proof {
            lemma_decimal_step(rest as nat);
            tail = seq![digit((rest % 10) as nat)] + tail;
        }
        digits.push(digit_char(rest % 10));
        rest = rest / 10;
    }
    let mut i: usize = digits.len();
    while i > 0
        invariant
            i <= digits@.len(),
            tail.len() == digits@.len(),
            forall|k: int| 0 <= k < tail.len() ==> tail[k] == digits@[digits@.len() - 1 - k],
            out@ == old(out)@ + tail.take(digits@.len() - i),
        decreases i,
    {
        i = i - 1;
        out.push(digits[i]);
    }
}

/// Trimming at the start drops a run of white space and nothing else: what
/// is left is the rest of `s`, and it does not start with white space.
pub proof fn lemma_trim_start(s: Seq<char>)
    ensures
        trim_start(s).len() <= s.len(),
        trim_start(s) == s.skip(s.len() - trim_start(s).len()),
        forall|j: int| 0 <= j < s.len() - trim_start(s).len() ==> is_space(s[j]),
        trim_start(s).len() > 0 ==> !is_space(trim_start(s)[0]),
    decreases s.len(),
{
    if s.len() > 0 && is_space(s[0]) {
        let rest = s.skip(1);
        lemma_trim_start(rest);
        assert forall|j: int| 0 <= j < s.len() - trim_start(s).len() implies is_space(s[j]) by {
            if j > 0 {
                assert(s[j] == rest[j - 1]);
            }
        }
    }
}

/// Trimming at the end drops a run of white space and nothing else: what is
/// left is the front of `s`, and it does not end with white space.
pub proof fn lemma_trim_end(s: Seq<char>)
    ensures
        trim_end(s).len() <= s.len(),
        trim_end(s) == s.take(trim_end(s).len() as int),
        forall|j: int| trim_end(s).len() <= j < s.len() ==> is_space(s[j]),
        trim_end(s).len() > 0 ==> !is_space(trim_end(s).last()),
    decreases s.len(),
{
    if s.len() > 0 && is_space(s.last()) {
        let front = s.drop_last();
        lemma_trim_end(front);
        assert forall|j: int| trim_end(s).len() <= j < s.len() implies is_space(s[j]) by {
            if j < s.len() - 1 {
                assert(s[j] == front[j]);
            }
        }
    }
}

/// A run of white space at the start of `s` that stops at the end of `s` or
/// before a character that is no white space is what trimming drops there.
pub proof fn lemma_trim_start_is(s: Seq<char>, n: int)
    requires
        0 <= n <= s.len(),
        forall|j: int| 0 <= j < n ==> is_space(s[j]),
        n < s.len() ==> !is_space(s[n]),
    ensures
        trim_start(s) == s.skip(n),
    decreases n,
{
    if n > 0 {
        let rest = s.skip(1);
        lemma_trim_start_is(rest, n - 1);
    }
}

/// A run of white space at the end of `s` that starts at the start of `s` or
/// after a character that is no white space is what trimming drops there.
pub proof fn lemma_trim_end_is(s: Seq<char>, m: int)
    requires
        0 <= m <= s.len(),
        forall|j: int| m <= j < s.len() ==> is_space(s[j]),
        m > 0 ==> !is_space(s[m - 1]),
    ensures
        trim_end(s) == s.take(m),
    decreases s.len() - m,
{
    if m < s.len() {
        let front = s.drop_last();
        lemma_trim_end_is(front, m);
    }
}

/// The part of `s` between a run of white space at its start and one at its
/// end, where that part is empty or neither starts nor ends with white
/// space, is `s` trimmed.
pub proof fn lemma_trim_is(s: Seq<char>, a: int, b: int)
    requires
        0 <= a <= b <= s.len(),
        forall|j: int| 0 <= j < a ==> is_space(s[j]),
        forall|j: int| b <= j < s.len() ==> is_space(s[j]),
        a < b ==> !is_space(s[a]) && !is_space(s[b - 1]),
    ensures
        trim(s) == s.subrange(a, b),
{
    if a < b {
        lemma_trim_start_is(s, a);
        let rest = s.skip(a);
        lemma_trim_end_is(rest, b - a);
    } else {
        lemma_trim_start_is(s, s.len() as int);
    }
}

/// Where `s` trimmed starts in `s`.
pub open spec fn trim_from(s: Seq<char>) -> int {
    s.len() - trim_start(s).len()
}

/// Where `s` trimmed ends in `s`.
pub open spec fn trim_to(s: Seq<char>) -> int {
    trim_from(s) + trim(s).len()
}

/// Trimming cuts `s` down to the part between the white space at its start
/// and the white space at its end; that part is empty or neither starts nor
/// ends with white space.
pub proof fn lemma_trim(s: Seq<char>)
    ensures
        0 <= trim_from(s) <= trim_to(s) <= s.len(),
        trim(s) == s.subrange(trim_from(s), trim_to(s)),
        forall|j: int| 0 <= j < trim_from(s) ==> is_space(s[j]),
        forall|j: int| trim_to(s) <= j < s.len() ==> is_space(s[j]),
        trim(s).len() > 0 ==> !is_space(trim(s)[0]) && !is_space(trim(s).last()),
{
    lemma_trim_start(s);
    let a = trim_from(s);
    let rest = trim_start(s);
    lemma_trim_end(rest);
    assert forall|j: int| trim_to(s) <= j < s.len() implies is_space(s[j]) by {
        assert(s[j] == rest[j - a]);
    }
}

/// A text that trimming leaves as it is neither starts nor ends with white
/// space.
pub proof fn lemma_trimmed_ends(s: Seq<char>)
    requires
        trim(s) == s,
    ensures
        s.len() > 0 ==> !is_space(s[0]) && !is_space(s.last()),
{
    lemma_trim(s);
}

} // verus!
