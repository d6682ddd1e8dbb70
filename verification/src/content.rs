//! What a best-bid-and-offer message says: its two sides, read from either message
//! shape and brought into a normal form that is the same for every feed.

use vstd::prelude::*;
use vstd::slice::slice_subrange;
use vstd::utf8::*;

use crate::number::{normal, read_decimal, Decimal, DecimalView};
use crate::search::{
    blanks_end, find, find_bytes, is_match_at, matches_at, number, occurs, read_number, skip_blanks,
};

verus! {

/// The normal form of one side: price, size and number of orders.
#[derive(Debug, PartialEq, Eq)]
pub struct LevelKey {
    pub px: Decimal,
    pub sz: Decimal,
    pub n: u64,
}

/// One side, by the numbers that it holds.
#[verifier::ext_equal]
pub struct LevelView {
    pub px: DecimalView,
    pub sz: DecimalView,
    pub n: u64,
}

impl View for LevelKey {
    type V = LevelView;

    open spec fn view(&self) -> LevelView {
        LevelView { px: self.px@, sz: self.sz@, n: self.n }
    }
}

/// The best bid and the best ask, each `None` where that side is empty.
pub type BboKey = (Option<LevelKey>, Option<LevelKey>);

/// The best bid and the best ask, by the numbers that they hold.
pub type ContentView = (Option<LevelView>, Option<LevelView>);

/// One side of a key, by the numbers that it holds.
pub open spec fn side_view(side: Option<LevelKey>) -> Option<LevelView> {
    match side {
        Some(level) => Some(level@),
        None => None,
    }
}

/// A key, by the numbers that it holds.
pub open spec fn key_view(key: BboKey) -> ContentView {
    (side_view(key.0), side_view(key.1))
}

/// A possible key, by the numbers that it holds.
pub open spec fn some_key_view(key: Option<BboKey>) -> Option<ContentView> {
    match key {
        Some(k) => Some(key_view(k)),
        None => None,
    }
}

/// What marks a message as a best-bid-and-offer message.
pub open spec fn bbo_channel() -> Seq<u8> {
    encode_utf8("\"channel\":\"bbo\""@)
}

/// The length of a value that is written without quotes: up to a comma, a bracket
/// or a blank.
pub open spec fn bare_len(s: Seq<u8>) -> nat
    decreases s.len(),
{
    if s.len() == 0 || s[0] == 44 || s[0] == 125 || s[0] == 93 || s[0] == 32 {
        0
    } else {
        1 + bare_len(s.drop_first())
    }
}

/// The value that stands behind a key, without its quotes.
pub open spec fn token(s: Seq<u8>) -> Option<Seq<u8>> {
    let v = skip_blanks(s);
    if v.len() > 0 && v[0] == 34 {
        match find(v.drop_first(), seq![34u8]) {
            Some(end) => Some(v.drop_first().take(end)),
            None => None,
        }
    } else {
        Some(v.take(bare_len(v) as int))
    }
}

/// The value of the first field of `object` that has this key.
pub open spec fn field(object: Seq<u8>, key: Seq<u8>) -> Option<Seq<u8>> {
    match find(object, key) {
        Some(at) => token(object.skip(at + key.len())),
        None => None,
    }
}

/// The number that a possible value denotes.
pub open spec fn decimal_of(value: Option<Seq<u8>>) -> Option<DecimalView> {
    match value {
        Some(v) => normal(v),
        None => None,
    }
}

/// The count that a possible value denotes.
pub open spec fn count_of(value: Option<Seq<u8>>) -> Option<u64> {
    match value {
        Some(v) => number(v),
        None => None,
    }
}

/// The side that an object describes: it has a price, a size and a count.
pub open spec fn level_of(object: Seq<u8>) -> Option<LevelView> {
    let px = decimal_of(field(object, encode_utf8("\"px\":"@)));
    let sz = decimal_of(field(object, encode_utf8("\"sz\":"@)));
    let n = count_of(field(object, encode_utf8("\"n\":"@)));
    if px is Some && sz is Some && n is Some {
        Some(LevelView { px: px.unwrap(), sz: sz.unwrap(), n: n.unwrap() })
    } else {
        None
    }
}

/// The side that `s` starts with, an object or `null`, and how many bytes it takes.
pub open spec fn side_at(s: Seq<u8>) -> Option<(Option<LevelView>, int)> {
    if s.len() > 0 && s[0] == 123 {
        match find(s, seq![125u8]) {
            Some(end) => match level_of(s.subrange(1, end)) {
                Some(level) => Some((Some(level), end + 1)),
                None => None,
            },
            None => None,
        }
    } else if matches_at(s, encode_utf8("null"@), 0) {
        Some((None, 4))
    } else {
        None
    }
}

/// `s` behind the byte `b`, where it starts with that, and behind the blanks that follow.
pub open spec fn behind(s: Seq<u8>, b: u8) -> Option<Seq<u8>> {
    if s.len() > 0 && s[0] == b {
        Some(skip_blanks(s.drop_first()))
    } else {
        None
    }
}

/// The two sides as an array of two.
pub open spec fn array_content(s: Seq<u8>) -> Option<ContentView> {
    match behind(s, 91) {
        None => None,
        Some(first) => match side_at(first) {
            None => None,
            Some((bid, used)) => match behind(skip_blanks(first.skip(used)), 44) {
                None => None,
                Some(second) => match side_at(second) {
                    None => None,
                    Some((ask, used)) => if behind(skip_blanks(second.skip(used)), 93) is Some {
                        Some((bid, ask))
                    } else {
                        None
                    },
                },
            },
        },
    }
}

/// The side that stands behind `key`: an empty one where the key is missing.
pub open spec fn keyed_side(s: Seq<u8>, key: Seq<u8>) -> Option<Option<LevelView>> {
    match find(s, key) {
        None => Some(None),
        Some(at) => match side_at(skip_blanks(s.skip(at + key.len()))) {
            Some((side, used)) => Some(side),
            None => None,
        },
    }
}

/// What a best-bid-and-offer message says. One shape has both sides in an array
/// behind `"bbo":`, the other has each behind its own key. `None` where the message
/// is none of these or one of its sides cannot be read.
pub open spec fn content(s: Seq<u8>) -> Option<ContentView> {
    if !occurs(s, bbo_channel()) {
        None
    } else {
        match find(s, encode_utf8("\"bbo\":"@)) {
            Some(at) => array_content(skip_blanks(s.skip(at + encode_utf8("\"bbo\":"@).len()))),
            None => {
                let bid = keyed_side(s, encode_utf8("\"bid\":"@));
                let ask = keyed_side(s, encode_utf8("\"ask\":"@));
                if bid is Some && ask is Some {
                    Some((bid.unwrap(), ask.unwrap()))
                } else {
                    None
                }
            },
        }
    }
}

fn behind_blanks(s: &[u8]) -> (r: &[u8])
    ensures
        r@ == skip_blanks(s@),
{
    let end = blanks_end(s, 0);
    assert(s@.skip(0) =~= s@);
    let r = slice_subrange(s, end, s.len());
    assert(r@ =~= s@.skip(end as int));
    r
}

fn skip(s: &[u8], n: usize) -> (r: &[u8])
    requires
        n <= s@.len(),
    ensures
        r@ == s@.skip(n as int),
{
    let r = slice_subrange(s, n, s.len());
    assert(r@ =~= s@.skip(n as int));
    r
}

fn read_bare_len(s: &[u8]) -> (n: usize)
    ensures
        n == bare_len(s@),
        n <= s@.len(),
{
    let mut n: usize = 0;
    assert(s@.skip(0) =~= s@);
    while n < s.len() && s[n] != 44 && s[n] != 125 && s[n] != 93 && s[n] != 32
        invariant
            n <= s@.len(),
            bare_len(s@) == n + bare_len(s@.skip(n as int)),
        decreases s@.len() - n,
    {
        assert(s@.skip(n as int).drop_first() =~= s@.skip(n + 1));
        n += 1;
    }
    n
}

fn read_token(s: &[u8]) -> (t: Option<&[u8]>)
    ensures
        match t {
            Some(t) => token(s@) == Some(t@),
            None => token(s@) is None,
        },
{
    let v = behind_blanks(s);
    if v.len() > 0 && v[0] == 34 {
        let quote: [u8; 1] = [34];
        assert(quote@ =~= seq![34u8]);
        let inner = skip(v, 1);
        assert(inner@ =~= v@.drop_first());
        match find_bytes(inner, &quote) {
            Some(end) => {
                let t = slice_subrange(inner, 0, end);
                assert(t@ =~= inner@.take(end as int));
                Some(t)
            },
            None => None,
        }
    } else {
        let n = read_bare_len(v);
        let t = slice_subrange(v, 0, n);
        assert(t@ =~= v@.take(n as int));
        Some(t)
    }
}

fn read_field<'a>(object: &'a [u8], key: &str) -> (t: Option<&'a [u8]>)
    ensures
        match t {
            Some(t) => field(object@, encode_utf8(key@)) == Some(t@),
            None => field(object@, encode_utf8(key@)) is None,
        },
{
    let key = key.as_bytes();
    match find_bytes(object, key) {
        Some(at) => read_token(skip(object, at + key.len())),
        None => None,
    }
}

fn read_decimal_field(object: &[u8], key: &str) -> (d: Option<Decimal>)
    ensures
        match d {
            Some(d) => decimal_of(field(object@, encode_utf8(key@))) == Some(d@),
            None => decimal_of(field(object@, encode_utf8(key@))) is None,
        },
{
    match read_field(object, key) {
        Some(t) => read_decimal(t),
        None => None,
    }
}

fn read_level(object: &[u8]) -> (level: Option<LevelKey>)
    ensures
        side_view(level) == level_of(object@),
{
    let px = match read_decimal_field(object, "\"px\":") {
        Some(px) => px,
        None => {
            return None;
        },
    };
    let sz = match read_decimal_field(object, "\"sz\":") {
        Some(sz) => sz,
        None => {
            return None;
        },
    };
    match read_field(object, "\"n\":") {
        Some(t) => {
            assert(t@.subrange(0, t@.len() as int) =~= t@);
            match read_number(t, 0, t.len()) {
                Some(n) => Some(LevelKey { px, sz, n }),
                None => None,
            }
        },
        None => None,
    }
}

fn read_side(s: &[u8]) -> (side: Option<(Option<LevelKey>, usize)>)
    ensures
        match side {
            Some((level, used)) => side_at(s@) == Some((side_view(level), used as int)) && used
                <= s@.len(),
            None => side_at(s@) is None,
        },
{
    let null = "null".as_bytes();
    proof {
        reveal_strlit("null");
        is_ascii_chars_encode_utf8("null"@);
    }
    if s.len() > 0 && s[0] == 123 {
        let close: [u8; 1] = [125];
        assert(close@ =~= seq![125u8]);
        match find_bytes(s, &close) {
            Some(end) => {
                assert(s@.subrange(end as int, end + 1)[0] == 125);
                assert(end > 0);
                match read_level(slice_subrange(s, 1, end)) {
                    Some(level) => Some((Some(level), end + 1)),
                    None => None,
                }
            },
            None => None,
        }
    } else if is_match_at(s, null, 0) {
        Some((None, 4))
    } else {
        None
    }
}

fn read_behind(s: &[u8], b: u8) -> (r: Option<&[u8]>)
    ensures
        match r {
            Some(r) => behind(s@, b) == Some(r@),
            None => behind(s@, b) is None,
        },
{
    if s.len() > 0 && s[0] == b {
        let inner = skip(s, 1);
        assert(inner@ =~= s@.drop_first());
        Some(behind_blanks(inner))
    } else {
        None
    }
}

fn read_array(s: &[u8]) -> (key: Option<BboKey>)
    ensures
        some_key_view(key) == array_content(s@),
{
    let first = match read_behind(s, 91) {
        Some(r) => r,
        None => {
            return None;
        },
    };
    let (bid, used) = match read_side(first) {
        Some(side) => side,
        None => {
            return None;
        },
    };
    let second = match read_behind(behind_blanks(skip(first, used)), 44) {
        Some(r) => r,
        None => {
            return None;
        },
    };
    let (ask, used) = match read_side(second) {
        Some(side) => side,
        None => {
            return None;
        },
    };
    match read_behind(behind_blanks(skip(second, used)), 93) {
        Some(_) => Some((bid, ask)),
        None => None,
    }
}

fn read_keyed_side(s: &[u8], key: &str) -> (side: Option<Option<LevelKey>>)
    ensures
        match side {
            Some(level) => keyed_side(s@, encode_utf8(key@)) == Some(side_view(level)),
            None => keyed_side(s@, encode_utf8(key@)) is None,
        },
{
    let key = key.as_bytes();
    match find_bytes(s, key) {
        None => Some(None),
        Some(at) => match read_side(behind_blanks(skip(s, at + key.len()))) {
            Some((level, _)) => Some(level),
            None => None,
        },
    }
}

/// Reads what a best-bid-and-offer message says, in the normal form in which updates
/// of different feeds are compared.
pub fn parse_bbo_content(text: &str) -> (key: Option<BboKey>)
    ensures
        some_key_view(key) == content(encode_utf8(text@)),
{
    let s = text.as_bytes();
    match find_bytes(s, "\"channel\":\"bbo\"".as_bytes()) {
        None => {
            return None;
        },
        Some(at) => {
            assert(matches_at(s@, bbo_channel(), at as int));
        },
    }
    let bbo = "\"bbo\":".as_bytes();
    match find_bytes(s, bbo) {
        Some(at) => read_array(behind_blanks(skip(s, at + bbo.len()))),
        None => {
            let bid = match read_keyed_side(s, "\"bid\":") {
                Some(side) => side,
                None => {
                    return None;
                },
            };
            match read_keyed_side(s, "\"ask\":") {
                Some(ask) => Some((bid, ask)),
                None => None,
            }
        },
    }
}

/// Whether two sides hold the same numbers.
fn same_side(a: &Option<LevelKey>, b: &Option<LevelKey>) -> (yes: bool)
    ensures
        yes == (side_view(*a) == side_view(*b)),
{
    match (a, b) {
        (Some(a), Some(b)) => a.n == b.n && a.px.same_as(&b.px) && a.sz.same_as(&b.sz),
        (None, None) => true,
        _ => false,
    }
}

/// Whether two messages say the same.
pub fn same_content(a: &BboKey, b: &BboKey) -> (yes: bool)
    ensures
        yes == (key_view(*a) == key_view(*b)),
{
    same_side(&a.0, &b.0) && same_side(&a.1, &b.1)
}

/// A key shows price, size and count of each side, and nothing of a side that is empty.
pub proof fn a_key_shows_its_sides(bid: LevelKey, ask: LevelKey)
    ensures
        bid@ == (LevelView { px: bid.px@, sz: bid.sz@, n: bid.n }),
        key_view((Some(bid), Some(ask))) == (Some(bid@), Some(ask@)),
        key_view((Some(bid), None)) == (Some(bid@), None::<LevelView>),
        key_view((None, Some(ask))) == (None::<LevelView>, Some(ask@)),
        key_view((None, None)) == (None::<LevelView>, None::<LevelView>),
        some_key_view(None) is None,
        some_key_view(Some((Some(bid), Some(ask)))) == Some((Some(bid@), Some(ask@))),
{
}

} // verus!
