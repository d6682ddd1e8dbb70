//! Character strings: decimal numbers, trimming, prefixes and suffixes, and how
//! the bytes of a string are put together.

use vstd::prelude::*;
use vstd::utf8::*;

use crate::search::{all_digits, digits_value};

verus! {

/// The character of a decimal digit.
pub open spec fn digit_char(d: nat) -> char {
    (48 + d) as char
}

/// `n` in decimal, without leading zeros.
pub open spec fn decimal(n: nat) -> Seq<char>
    decreases n,
{
    if n < 10 {
        seq![digit_char(n)]
    } else {
        decimal(n / 10).push(digit_char(n % 10))
    }
}

/// The text of one decimal digit.
pub fn digit_text(d: u64) -> (text: &'static str)
    requires
        d < 10,
    ensures
        text@ == seq![digit_char(d as nat)],
{
    proof {
        reveal_strlit("0");
        reveal_strlit("1");
        reveal_strlit("2");
        reveal_strlit("3");
        reveal_strlit("4");
        reveal_strlit("5");
        reveal_strlit("6");
        reveal_strlit("7");
        reveal_strlit("8");
        reveal_strlit("9");
    }
    match d {
        0 => "0",
        1 => "1",
        2 => "2",
        3 => "3",
        4 => "4",
        5 => "5",
        6 => "6",
        7 => "7",
        8 => "8",
        _ => "9",
    }
}

/// Appends `n` in decimal.
pub fn push_decimal(out: &mut String, n: u64)
    ensures
        final(out)@ == old(out)@ + decimal(n as nat),
    decreases n,
{
    if n >= 10 {
        push_decimal(out, n / 10);
    }
    out.append(digit_text(n % 10));
    assert(out@ =~= old(out)@ + decimal(n as nat));
}

/// The bytes of two texts, one behind the other, are the bytes of the first and
/// then those of the second.
pub proof fn lemma_encode_concat(a: Seq<char>, b: Seq<char>)
    ensures
        encode_utf8(a + b) == encode_utf8(a) + encode_utf8(b),
    decreases a.len(),
{
    if a.len() == 0 {
        assert(a + b =~= b);
        assert(encode_utf8(a) + encode_utf8(b) =~= encode_utf8(b));
    } else {
        assert((a + b).drop_first() =~= a.drop_first() + b);
        lemma_encode_concat(a.drop_first(), b);
        assert(encode_utf8(a + b) =~= encode_utf8(a) + encode_utf8(b));
    }
}

/// A decimal number is written in digits that spell it.
pub proof fn lemma_decimal(n: nat)
    ensures
        is_ascii_chars(decimal(n)),
        decimal(n).len() > 0,
        encode_utf8(decimal(n)).len() == decimal(n).len(),
        all_digits(encode_utf8(decimal(n))),
        digits_value(encode_utf8(decimal(n))) == n,
    decreases n,
{
    if n < 10 {
        let s = decimal(n);
        is_ascii_chars_encode_utf8(s);
        let b = encode_utf8(s);
        assert(b =~= seq![(48 + n) as u8]) by {
            assert(s[0] as u8 == b[0]);
        }
        assert(b.drop_last() =~= Seq::<u8>::empty());
        assert(digits_value(b.drop_last()) == 0);
    } else {
        lemma_decimal(n / 10);
        let last = seq![digit_char(n % 10)];
        assert(decimal(n) =~= decimal(n / 10) + last);
        lemma_encode_concat(decimal(n / 10), last);
        is_ascii_chars_encode_utf8(last);
        let b = encode_utf8(decimal(n));
        let d = encode_utf8(last);
        assert(d =~= seq![(48 + n % 10) as u8]) by {
            assert(last[0] as u8 == d[0]);
        }
        assert(b.drop_last() =~= encode_utf8(decimal(n / 10)));
        assert(b.last() == d[0]);
    }
}

/// A character that Unicode lists as white space.
pub open spec fn is_white_space(c: char) -> bool {
    ||| '\u{9}' <= c <= '\u{d}'
    ||| c == '\u{20}'
    ||| c == '\u{85}'
    ||| c == '\u{a0}'
    ||| c == '\u{1680}'
    ||| '\u{2000}' <= c <= '\u{200a}'
    ||| c == '\u{2028}'
    ||| c == '\u{2029}'
    ||| c == '\u{202f}'
    ||| c == '\u{205f}'
    ||| c == '\u{3000}'
}

/// Whether Unicode lists `c` as white space.
pub fn white_space(c: char) -> (yes: bool)
    ensures
        yes == is_white_space(c),
{
    (c >= '\u{9}' && c <= '\u{d}') || c == '\u{20}' || c == '\u{85}' || c == '\u{a0}' || c
        == '\u{1680}' || (c >= '\u{2000}' && c <= '\u{200a}') || c == '\u{2028}' || c == '\u{2029}'
        || c == '\u{202f}' || c == '\u{205f}' || c == '\u{3000}'
}

/// `s` without the white space that it starts with.
pub open spec fn trim_start(s: Seq<char>) -> Seq<char>
    decreases s.len(),
{
    if s.len() > 0 && is_white_space(s[0]) {
        trim_start(s.drop_first())
    } else {
        s
    }
}

/// `s` without the white space that it ends with.
pub open spec fn trim_end(s: Seq<char>) -> Seq<char>
    decreases s.len(),
{
    if s.len() > 0 && is_white_space(s.last()) {
        trim_end(s.drop_last())
    } else {
        s
    }
}

/// `s` without the white space at either end.
pub open spec fn trimmed(s: Seq<char>) -> Seq<char> {
    trim_end(trim_start(s))
}

/// `s` without the occurrences of `c` that it ends with.
pub open spec fn without_trailing(s: Seq<char>, c: char) -> Seq<char>
    decreases s.len(),
{
    if s.len() > 0 && s.last() == c {
        without_trailing(s.drop_last(), c)
    } else {
        s
    }
}

/// The characters of `s`, one by one.
pub fn chars_of(s: &str) -> (v: Vec<char>)
    ensures
        v@ == s@,
{
    let mut v: Vec<char> = Vec::new();
    for c in iter: s.chars()
        invariant
            iter.seq() == s@,
            v@ == s@.take(iter.index() as int),
    {
        v.push(c);
    }
    assert(s@.take(s@.len() as int) =~= s@);
    v
}

/// `s` without the white space at either end.
pub fn trim<'a>(s: &'a str) -> (t: &'a str)
    ensures
        t@ == trimmed(s@),
{
    let v = chars_of(s);
    let mut lo: usize = 0;
    assert(s@.skip(0) =~= s@);
    while lo < v.len() && white_space(v[lo])
        invariant
            v@ == s@,
            lo <= v@.len(),
            trim_start(s@) == trim_start(s@.skip(lo as int)),
        decreases v@.len() - lo,
    {
        assert(s@.skip(lo as int).drop_first() =~= s@.skip(lo + 1));
        lo += 1;
    }
    assert(trim_start(s@) == s@.skip(lo as int));
    let mut hi: usize = v.len();
    assert(s@.subrange(lo as int, hi as int) =~= s@.skip(lo as int));
    while hi > lo && white_space(v[hi - 1])
        invariant
            v@ == s@,
            lo <= hi <= v@.len(),
            trim_end(trim_start(s@)) == trim_end(s@.subrange(lo as int, hi as int)),
        decreases hi,
    {
        assert(s@.subrange(lo as int, hi as int).drop_last() =~= s@.subrange(lo as int, hi - 1));
        hi -= 1;
    }
    s.substring_char(lo, hi)
}

/// `s` without the occurrences of `c` that it ends with.
pub fn trim_trailing<'a>(s: &'a str, c: char) -> (t: &'a str)
    ensures
        t@ == without_trailing(s@, c),
{
    let v = chars_of(s);
    let mut hi: usize = v.len();
    assert(s@.take(hi as int) =~= s@);
    while hi > 0 && v[hi - 1] == c
        invariant
            v@ == s@,
            hi <= v@.len(),
            without_trailing(s@, c) == without_trailing(s@.take(hi as int), c),
        decreases hi,
    {
        assert(s@.take(hi as int).drop_last() =~= s@.take(hi - 1));
        hi -= 1;
    }
    let t = s.substring_char(0, hi);
    assert(t@ =~= s@.take(hi as int));
    t
}

/// `s` starts with `prefix`.
pub open spec fn has_prefix(s: Seq<char>, prefix: Seq<char>) -> bool {
    prefix.len() <= s.len() && s.take(prefix.len() as int) == prefix
}

/// `s` ends with `suffix`.
pub open spec fn has_suffix(s: Seq<char>, suffix: Seq<char>) -> bool {
    suffix.len() <= s.len() && s.skip(s.len() - suffix.len()) == suffix
}

/// Whether the characters `a` are `b` from position `at` on.
fn chars_match(a: &Vec<char>, b: &Vec<char>, at: usize) -> (yes: bool)
    requires
        at + b@.len() <= a@.len(),
    ensures
        yes == (a@.subrange(at as int, at + b@.len()) == b@),
{
    let len: usize = a.len();
    let mut i: usize = 0;
    while i < b.len()
        invariant
            i <= b@.len(),
            at + b@.len() <= a@.len() == len,
            forall|k: int| 0 <= k < i ==> a@[at + k] == b@[k],
        decreases b@.len() - i,
    {
        if a[at + i] != b[i] {
            assert(a@.subrange(at as int, at + b@.len())[i as int] != b@[i as int]);
            return false;
        }
        i += 1;
    }
    assert(a@.subrange(at as int, at + b@.len()) =~= b@);
    true
}

/// Whether `s` starts with `prefix`.
pub fn starts_with(s: &str, prefix: &str) -> (yes: bool)
    ensures
        yes == has_prefix(s@, prefix@),
{
    let a = chars_of(s);
    let b = chars_of(prefix);
    if a.len() < b.len() {
        return false;
    }
    chars_match(&a, &b, 0)
}

/// What stands behind `prefix`, where `s` starts with it.
pub fn strip_prefix<'a>(s: &'a str, prefix: &str) -> (rest: Option<&'a str>)
    ensures
        match rest {
            Some(r) => has_prefix(s@, prefix@) && r@ == s@.skip(prefix@.len() as int),
            None => !has_prefix(s@, prefix@),
        },
{
    let a = chars_of(s);
    let b = chars_of(prefix);
    if a.len() < b.len() {
        return None;
    }
    assert(s@.take(b@.len() as int) =~= s@.subrange(0, b@.len() as int));
    if chars_match(&a, &b, 0) {
        let r = s.substring_char(b.len(), a.len());
        assert(r@ =~= s@.skip(b@.len() as int));
        Some(r)
    } else {
        None
    }
}

/// What stands before `suffix`, where `s` ends with it.
pub fn strip_suffix<'a>(s: &'a str, suffix: &str) -> (rest: Option<&'a str>)
    ensures
        match rest {
            Some(r) => has_suffix(s@, suffix@) && r@ == s@.take(s@.len() - suffix@.len()),
            None => !has_suffix(s@, suffix@),
        },
{
    let a = chars_of(s);
    let b = chars_of(suffix);
    if a.len() < b.len() {
        return None;
    }
    let at: usize = a.len() - b.len();
    assert(s@.skip(at as int) =~= s@.subrange(at as int, s@.len() as int));
    if chars_match(&a, &b, at) {
        let r = s.substring_char(0, at);
        assert(r@ =~= s@.take(at as int));
        Some(r)
    } else {
        None
    }
}

/// Whether `c` stands somewhere in `s`.
pub fn contains_char(s: &str, c: char) -> (yes: bool)
    ensures
        yes == s@.contains(c),
{
    let v = chars_of(s);
    let mut i: usize = 0;
    while i < v.len()
        invariant
            v@ == s@,
            i <= v@.len(),
            forall|k: int| 0 <= k < i ==> v@[k] != c,
        decreases v@.len() - i,
    {
        if v[i] == c {
            assert(s@[i as int] == c);
            return true;
        }
        i += 1;
    }
    false
}

/// The texts of a list of strings.
pub open spec fn texts(list: Seq<String>) -> Seq<Seq<char>> {
    list.map_values(|s: String| s@)
}

/// The text of a string slice, where there is one.
pub open spec fn str_view(s: Option<&str>) -> Option<Seq<char>> {
    match s {
        Some(s) => Some(s@),
        None => None,
    }
}

/// The text of a string, where there is one.
pub open spec fn string_view(s: Option<String>) -> Option<Seq<char>> {
    match s {
        Some(s) => Some(s@),
        None => None,
    }
}

/// A text, or the words of a fault.
pub open spec fn result_view(r: Result<String, String>) -> Result<Seq<char>, Seq<char>> {
    match r {
        Ok(s) => Ok(s@),
        Err(e) => Err(e@),
    }
}

/// A string that holds `a` and then `b`.
pub fn concat(a: &str, b: &str) -> (s: String)
    ensures
        s@ == a@ + b@,
{
    let mut s = String::from_str(a);
    s.append(b);
    s
}

/// Trimming takes the white space around a text away and nothing else.
pub proof fn white_space_around_a_text_is_trimmed(
    before: Seq<char>,
    s: Seq<char>,
    after: Seq<char>,
)
    requires
        forall|i: int| 0 <= i < before.len() ==> is_white_space(#[trigger] before[i]),
        forall|i: int| 0 <= i < after.len() ==> is_white_space(#[trigger] after[i]),
        s.len() > 0 ==> !is_white_space(s[0]) && !is_white_space(s.last()),
    ensures
        trimmed(before + s + after) == s,
{
    lemma_trim_start(before, s + after);
    assert(before + s + after =~= before + (s + after));
    if s.len() > 0 {
        assert((s + after)[0] == s[0]);
        assert(trim_start(s + after) == s + after);
        lemma_trim_end(s, after);
    } else {
        lemma_trim_start(after, Seq::empty());
        assert(after + Seq::<char>::empty() =~= after);
        assert(s + after =~= after);
        assert(s =~= Seq::empty());
    }
}

proof fn lemma_trim_start(before: Seq<char>, s: Seq<char>)
    requires
        forall|i: int| 0 <= i < before.len() ==> is_white_space(#[trigger] before[i]),
    ensures
        trim_start(before + s) == trim_start(s),
    decreases before.len(),
{
    if before.len() == 0 {
        assert(before + s =~= s);
    } else {
        let rest = before.drop_first();
        assert((before + s)[0] == before[0]);
        assert((before + s).drop_first() =~= rest + s);
        assert forall|i: int| 0 <= i < rest.len() implies is_white_space(#[trigger] rest[i]) by {
            assert(is_white_space(before[i + 1]));
        }
        lemma_trim_start(rest, s);
    }
}

proof fn lemma_trim_end(s: Seq<char>, after: Seq<char>)
    requires
        forall|i: int| 0 <= i < after.len() ==> is_white_space(#[trigger] after[i]),
        s.len() > 0,
        !is_white_space(s.last()),
    ensures
        trim_end(s + after) == s,
    decreases after.len(),
{
    if after.len() == 0 {
        assert(s + after =~= s);
    } else {
        let rest = after.drop_last();
        assert((s + after).last() == after.last());
        assert(is_white_space(after[after.len() - 1]));
        assert((s + after).drop_last() =~= s + rest);
        assert forall|i: int| 0 <= i < rest.len() implies is_white_space(#[trigger] rest[i]) by {
            assert(is_white_space(after[i]));
        }
        lemma_trim_end(s, rest);
    }
}

/// The occurrences of a character at the end of a text are taken away and nothing else.
pub proof fn a_trailing_character_is_taken_away(s: Seq<char>, c: char, n: nat)
    requires
        s.len() > 0 ==> s.last() != c,
    ensures
        without_trailing(s + Seq::new(n, |i: int| c), c) == s,
    decreases n,
{
    let t = s + Seq::new(n, |i: int| c);
    if n == 0 {
        assert(t =~= s);
    } else {
        assert(t.drop_last() =~= s + Seq::new((n - 1) as nat, |i: int| c));
        assert(t.last() == c);
        a_trailing_character_is_taken_away(s, c, (n - 1) as nat);
    }
}

/// A number in decimal has no zeros in front.
pub proof fn a_number_has_no_zeros_in_front(n: nat)
    ensures
        n > 0 ==> decimal(n)[0] != '0',
        n < 10 ==> decimal(n).len() == 1,
        n >= 10 ==> decimal(n).len() == decimal(n / 10).len() + 1 && decimal(n).drop_last()
            == decimal(n / 10),
    decreases n,
{
    lemma_decimal(n);
    if n >= 10 {
        lemma_decimal(n / 10);
        a_number_has_no_zeros_in_front(n / 10);
        assert(decimal(n)[0] == decimal(n / 10)[0]);
        assert(decimal(n).drop_last() =~= decimal(n / 10));
    } else if n > 0 {
        assert(decimal(n)[0] == digit_char(n));
        assert(digit_char(n) as int == 48 + n);
    }
}

/// A text starts with what stands in front of it and ends with what stands behind.
pub proof fn a_text_starts_and_ends(a: Seq<char>, b: Seq<char>, s: Seq<char>)
    ensures
        has_prefix(a + b, a),
        has_suffix(a + b, b),
        has_prefix(s, a) ==> s == a + s.skip(a.len() as int),
        has_suffix(s, b) ==> s == s.take(s.len() - b.len()) + b,
{
    assert((a + b).take(a.len() as int) =~= a);
    assert((a + b).skip(a.len() as int) =~= b);
    if has_prefix(s, a) {
        assert(s =~= s.take(a.len() as int) + s.skip(a.len() as int));
    }
    if has_suffix(s, b) {
        assert(s =~= s.take(s.len() - b.len()) + s.skip(s.len() - b.len()));
    }
}

/// Texts and lists of texts show what they hold.
pub proof fn texts_show_what_they_hold(s: &str, t: String, list: Seq<String>, i: int)
    requires
        0 <= i < list.len(),
    ensures
        str_view(Some(s)) == Some(s@),
        str_view(None) is None,
        string_view(Some(t)) == Some(t@),
        string_view(None) is None,
        result_view(Ok(t)) == Ok::<Seq<char>, Seq<char>>(t@),
        result_view(Err(t)) == Err::<Seq<char>, Seq<char>>(t@),
        texts(list).len() == list.len(),
        texts(list)[i] == list[i]@,
{
}

} // verus!
