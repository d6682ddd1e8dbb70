//! Searching and reading byte strings: the first place where a needle occurs,
//! runs of blanks and digits, and the numbers that digits spell.

use vstd::prelude::*;
use vstd::utf8::*;

verus! {

/// `needle` stands in `hay` at position `at`.
pub open spec fn matches_at(hay: Seq<u8>, needle: Seq<u8>, at: int) -> bool {
    &&& 0 <= at
    &&& at + needle.len() <= hay.len()
    &&& hay.subrange(at, at + needle.len()) == needle
}

/// `needle` stands somewhere in `hay`.
pub open spec fn occurs(hay: Seq<u8>, needle: Seq<u8>) -> bool {
    exists|at: int| matches_at(hay, needle, at)
}

/// `at` is the first position at which `needle` stands in `hay`.
pub open spec fn first_at(hay: Seq<u8>, needle: Seq<u8>, at: int) -> bool {
    &&& matches_at(hay, needle, at)
    &&& forall|j: int| 0 <= j < at ==> !matches_at(hay, needle, j)
}

/// The first position at which `needle` stands in `hay`, if there is one.
pub open spec fn find(hay: Seq<u8>, needle: Seq<u8>) -> Option<int> {
    if occurs(hay, needle) {
        Some(choose|at: int| first_at(hay, needle, at))
    } else {
        None
    }
}

/// Where a needle occurs, it occurs for the first time at exactly one position,
/// not behind any other.
pub proof fn lemma_find(hay: Seq<u8>, needle: Seq<u8>, at: int)
    requires
        matches_at(hay, needle, at),
    ensures
        find(hay, needle) matches Some(p) && first_at(hay, needle, p) && p <= at,
    decreases at,
{
    if exists|j: int| 0 <= j < at && matches_at(hay, needle, j) {
        let j = choose|j: int| 0 <= j < at && matches_at(hay, needle, j);
        lemma_find(hay, needle, j);
    } else {
        assert(first_at(hay, needle, at));
        let p = choose|p: int| first_at(hay, needle, p);
        assert(first_at(hay, needle, p));
    }
}

/// A position that is the first one is the one found.
pub proof fn lemma_found_at(hay: Seq<u8>, needle: Seq<u8>, at: int)
    requires
        first_at(hay, needle, at),
    ensures
        find(hay, needle) == Some(at),
{
    lemma_find(hay, needle, at);
    let p = find(hay, needle).unwrap();
    if p < at {
        assert(!matches_at(hay, needle, p));
    }
}

/// Whether `needle` stands in `hay` at position `at`.
pub fn is_match_at(hay: &[u8], needle: &[u8], at: usize) -> (yes: bool)
    ensures
        yes == matches_at(hay@, needle@, at as int),
{
    if at > hay.len() || hay.len() - at < needle.len() {
        return false;
    }
    let mut i: usize = 0;
    while i < needle.len()
        invariant
            i <= needle@.len(),
            at + needle@.len() <= hay@.len() <= usize::MAX,
            forall|k: int| 0 <= k < i ==> hay@[at + k] == needle@[k],
        decreases needle@.len() - i,
    {
        if hay[at + i] != needle[i] {
            assert(hay@.subrange(at as int, at + needle@.len())[i as int] != needle@[i as int]);
            return false;
        }
        i += 1;
    }
    assert(hay@.subrange(at as int, at + needle@.len()) =~= needle@);
    true
}

/// The first position at or behind `from` at which `needle` stands in `hay`.
pub fn find_from(hay: &[u8], needle: &[u8], from: usize) -> (at: Option<usize>)
    requires
        from <= hay@.len(),
    ensures
        match at {
            Some(p) => from <= p && matches_at(hay@, needle@, p as int) && forall|j: int|
                from <= j < p ==> !matches_at(hay@, needle@, j),
            None => forall|j: int| from <= j ==> !matches_at(hay@, needle@, j),
        },
{
    let mut at: usize = from;
    while at < hay.len()
        invariant
            from <= at <= hay@.len(),
            forall|j: int| from <= j < at ==> !matches_at(hay@, needle@, j),
        decreases hay@.len() - at,
    {
        if is_match_at(hay, needle, at) {
            return Some(at);
        }
        at += 1;
    }
    if is_match_at(hay, needle, at) {
        return Some(at);
    }
    None
}

/// The first position at which `needle` stands in `hay`.
pub fn find_bytes(hay: &[u8], needle: &[u8]) -> (at: Option<usize>)
    ensures
        match at {
            Some(p) => find(hay@, needle@) == Some(p as int) && first_at(
                hay@,
                needle@,
                p as int,
            ) && p + needle@.len() <= usize::MAX,
            None => find(hay@, needle@) is None && !occurs(hay@, needle@),
        },
{
    assert(hay@.len() == hay.len());
    let at = find_from(hay, needle, 0);
    proof {
        if let Some(p) = at {
            lemma_found_at(hay@, needle@, p as int);
        }
    }
    at
}

/// Whether `needle` stands somewhere in `hay`.
pub fn contains(hay: &str, needle: &str) -> (yes: bool)
    ensures
        yes == occurs(encode_utf8(hay@), encode_utf8(needle@)),
{
    match find_bytes(hay.as_bytes(), needle.as_bytes()) {
        Some(at) => {
            assert(matches_at(encode_utf8(hay@), encode_utf8(needle@), at as int));
            true
        },
        None => false,
    }
}

/// An ASCII digit.
pub open spec fn is_digit(b: u8) -> bool {
    48 <= b <= 57
}

/// All of `s` are digits.
pub open spec fn all_digits(s: Seq<u8>) -> bool {
    forall|i: int| 0 <= i < s.len() ==> is_digit(#[trigger] s[i])
}

/// `s` behind the blanks that it starts with.
pub open spec fn skip_blanks(s: Seq<u8>) -> Seq<u8>
    decreases s.len(),
{
    if s.len() > 0 && s[0] == 32 {
        skip_blanks(s.drop_first())
    } else {
        s
    }
}

/// How many digits `s` starts with.
pub open spec fn digit_run(s: Seq<u8>) -> nat
    decreases s.len(),
{
    if s.len() > 0 && is_digit(s[0]) {
        1 + digit_run(s.drop_first())
    } else {
        0
    }
}

/// The number that the digits `s` spell.
pub open spec fn digits_value(s: Seq<u8>) -> nat
    decreases s.len(),
{
    if s.len() == 0 {
        0
    } else {
        digits_value(s.drop_last()) * 10 + (s.last() - 48) as nat
    }
}

/// The number that `s` spells, where all of it are digits, there is at least one
/// and the number fits.
pub open spec fn number(s: Seq<u8>) -> Option<u64> {
    if s.len() > 0 && all_digits(s) && digits_value(s) <= u64::MAX {
        Some(digits_value(s) as u64)
    } else {
        None
    }
}

/// `n` is the length of the longest run of digits that `s` starts with.
pub proof fn lemma_digit_run(s: Seq<u8>, n: nat)
    requires
        n <= s.len(),
        all_digits(s.take(n as int)),
        n < s.len() ==> !is_digit(s[n as int]),
    ensures
        digit_run(s) == n,
    decreases n,
{
    if n > 0 {
        assert(s.take(n as int)[0] == s[0]);
        assert(s.drop_first().take(n - 1) =~= s.take(n as int).drop_first());
        assert forall|i: int| 0 <= i < n - 1 implies is_digit(
            #[trigger] s.drop_first().take(n - 1)[i],
        ) by {
            assert(s.take(n as int)[i + 1] == s.drop_first().take(n - 1)[i]);
        }
        lemma_digit_run(s.drop_first(), (n - 1) as nat);
    }
}

/// Blanks are skipped up to the first byte that is none.
pub proof fn lemma_skip_blanks(s: Seq<u8>, n: nat)
    requires
        n <= s.len(),
        forall|i: int| 0 <= i < n ==> #[trigger] s[i] == 32,
        n < s.len() ==> s[n as int] != 32,
    ensures
        skip_blanks(s) == s.skip(n as int),
    decreases n,
{
    if n > 0 {
        assert forall|i: int| 0 <= i < n - 1 implies #[trigger] s.drop_first()[i] == 32 by {
            assert(s[i + 1] == 32);
        }
        lemma_skip_blanks(s.drop_first(), (n - 1) as nat);
        assert(s.drop_first().skip(n - 1) =~= s.skip(n as int));
    } else {
        assert(s.skip(0) =~= s);
    }
}

/// A number is at least as large as the one that its leading digits spell.
pub proof fn lemma_digits_value_grows(s: Seq<u8>, n: int)
    requires
        all_digits(s),
        0 <= n <= s.len(),
    ensures
        digits_value(s.take(n)) <= digits_value(s),
    decreases s.len() - n,
{
    if n == s.len() {
        assert(s.take(n) =~= s);
    } else {
        lemma_digits_value_grows(s, n + 1);
        assert(s.take(n + 1).drop_last() =~= s.take(n));
        assert(is_digit(s[n]));
    }
}

/// The position behind the blanks that stand in `s` from `from` on.
pub fn blanks_end(s: &[u8], from: usize) -> (end: usize)
    requires
        from <= s@.len(),
    ensures
        from <= end <= s@.len(),
        skip_blanks(s@.skip(from as int)) == s@.skip(end as int),
        end < s@.len() ==> s@[end as int] != 32,
{
    let mut i: usize = from;
    while i < s.len() && s[i] == 32
        invariant
            from <= i <= s@.len(),
            forall|k: int| from <= k < i ==> #[trigger] s@[k] == 32,
        decreases s@.len() - i,
    {
        i += 1;
    }
    proof {
        let rest = s@.skip(from as int);
        assert forall|k: int| 0 <= k < i - from implies #[trigger] rest[k] == 32 by {
            assert(s@[from + k] == 32);
        }
        lemma_skip_blanks(rest, (i - from) as nat);
        assert(rest.skip(i - from) =~= s@.skip(i as int));
    }
    i
}

/// The position behind the digits that stand in `s` from `from` on.
pub fn digits_end(s: &[u8], from: usize) -> (end: usize)
    requires
        from <= s@.len(),
    ensures
        from <= end <= s@.len(),
        end - from == digit_run(s@.skip(from as int)),
        all_digits(s@.subrange(from as int, end as int)),
{
    let mut i: usize = from;
    while i < s.len() && s[i] >= 48 && s[i] <= 57
        invariant
            from <= i <= s@.len(),
            forall|k: int| from <= k < i ==> is_digit(#[trigger] s@[k]),
        decreases s@.len() - i,
    {
        i += 1;
    }
    proof {
        let rest = s@.skip(from as int);
        lemma_digit_run(rest, (i - from) as nat);
    }
    i
}

/// The number that the bytes of `s` from `from` to `end` spell.
pub fn read_number(s: &[u8], from: usize, end: usize) -> (n: Option<u64>)
    requires
        from <= end <= s@.len(),
    ensures
        n == number(s@.subrange(from as int, end as int)),
{
    let ghost digits = s@.subrange(from as int, end as int);
    if from == end {
        return None;
    }
    let mut value: Option<u64> = Some(0);
    let mut i: usize = from;
    while i < end
        invariant
            from <= i <= end <= s@.len(),
            digits == s@.subrange(from as int, end as int),
            forall|k: int| 0 <= k < i - from ==> is_digit(#[trigger] digits[k]),
            match value {
                Some(v) => v == digits_value(digits.take(i - from)),
                None => digits_value(digits.take(i - from)) > u64::MAX,
            },
        decreases end - i,
    {
        let b = s[i];
        assert(b == digits[i - from]);
        if b < 48 || b > 57 {
            return None;
        }
        assert(digits.take(i + 1 - from).drop_last() =~= digits.take(i - from));
        value = match value {
            None => None,
            Some(v) => match v.checked_mul(10) {
                None => None,
                Some(w) => w.checked_add((b - 48) as u64),
            },
        };
        i += 1;
    }
    assert(digits.take(end - from) =~= digits);
    value
}

/// A needle occurs in whatever it is part of, and is found at the first place where it
/// stands.
pub proof fn a_needle_is_found_where_it_stands(pre: Seq<u8>, needle: Seq<u8>, post: Seq<u8>)
    ensures
        occurs(pre + needle + post, needle),
        find(pre + needle + post, needle) matches Some(p) && 0 <= p <= pre.len(),
{
    let s = pre + needle + post;
    let at = pre.len() as int;
    assert(s.subrange(at, at + needle.len()) =~= needle);
    assert(matches_at(s, needle, at));
    lemma_find(s, needle, at);
}

/// Where a needle is found, it stands, and it does not stand before that place; where none
/// is found, it stands nowhere.
pub proof fn what_is_found_stands_there(hay: Seq<u8>, needle: Seq<u8>, pre: Seq<u8>, post: Seq<u8>)
    ensures
        find(hay, needle) matches Some(p) ==> {
            &&& 0 <= p <= hay.len() - needle.len()
            &&& hay == hay.take(p) + needle + hay.skip(p + needle.len())
            &&& hay == pre + needle + post ==> p <= pre.len()
        },
        find(hay, needle) is None ==> hay != pre + needle + post && !occurs(hay, needle),
{
    if hay == pre + needle + post {
        a_needle_is_found_where_it_stands(pre, needle, post);
    }
    if occurs(hay, needle) {
        let at = choose|at: int| matches_at(hay, needle, at);
        lemma_find(hay, needle, at);
        let p = find(hay, needle)->0;
        assert(hay =~= hay.take(p) + needle + hay.skip(p + needle.len()));
    }
}

/// Digits spell a number in base ten: one more digit makes it ten times as large, and adds
/// the digit. A number that does not fit 64 bits, or anything but digits, is none.
pub proof fn digits_spell_a_number(s: Seq<u8>, d: u8)
    requires
        is_digit(d),
    ensures
        digits_value(Seq::empty()) == 0,
        digits_value(s.push(d)) == 10 * digits_value(s) + (d - 48),
        number(Seq::empty()) is None,
        all_digits(s) && digits_value(s.push(d)) <= u64::MAX ==> number(s.push(d)) == Some(
            digits_value(s.push(d)) as u64,
        ),
        digits_value(s.push(d)) > u64::MAX ==> number(s.push(d)) is None,
        !all_digits(s) ==> number(s.push(d)) is None,
{
    let t = s.push(d);
    assert(t.drop_last() =~= s);
    if all_digits(s) {
        assert(all_digits(t));
    } else {
        let i = choose|i: int| 0 <= i < s.len() && !is_digit(#[trigger] s[i]);
        assert(!is_digit(t[i]));
    }
}

} // verus!
