//! What the readers make of a rendered update: they give back its time and its
//! sides.

use vstd::prelude::*;
use vstd::utf8::*;

use crate::content::{
    array_content, bare_len, bbo_channel, content, field, keyed_side, side_at, token, LevelView,
};
use crate::feed::{leading_number, message_time, time_key};
use crate::grpc_feed::{level_json, side_json, update_json, BboBookUpdate, L2Level};
use crate::number::{decimal_parts, normal, point};
use crate::search::{
    all_digits, digits_value, find, first_at, is_digit, lemma_digit_run, lemma_find,
    lemma_found_at, lemma_skip_blanks, matches_at, number, occurs, skip_blanks,
};
use crate::text::{decimal, lemma_decimal, lemma_encode_concat};

verus! {

proof fn lemma_head_bytes()
    ensures
        encode_utf8("{\"channel\":\"bbo\",\"data\":{\"coin\":\""@) == seq![123u8, 34, 99, 104, 97, 110, 110, 101, 108, 34, 58, 34, 98, 98, 111, 34, 44, 34, 100, 97, 116, 97, 34, 58, 123, 34, 99, 111, 105, 110, 34, 58, 34],
{
    reveal_strlit("{\"channel\":\"bbo\",\"data\":{\"coin\":\"");
    is_ascii_chars_encode_utf8("{\"channel\":\"bbo\",\"data\":{\"coin\":\""@);
    assert(encode_utf8("{\"channel\":\"bbo\",\"data\":{\"coin\":\""@) =~= seq![123u8, 34, 99, 104, 97, 110, 110, 101, 108, 34, 58, 34, 98, 98, 111, 34, 44, 34, 100, 97, 116, 97, 34, 58, 123, 34, 99, 111, 105, 110, 34, 58, 34]);
}

proof fn lemma_time_bytes()
    ensures
        encode_utf8("\",\"time\":"@) == seq![34u8, 44, 34, 116, 105, 109, 101, 34, 58],
{
    reveal_strlit("\",\"time\":");
    is_ascii_chars_encode_utf8("\",\"time\":"@);
    assert(encode_utf8("\",\"time\":"@) =~= seq![34u8, 44, 34, 116, 105, 109, 101, 34, 58]);
}

proof fn lemma_bid_bytes()
    ensures
        encode_utf8(",\"bid\":"@) == seq![44u8, 34, 98, 105, 100, 34, 58],
{
    reveal_strlit(",\"bid\":");
    is_ascii_chars_encode_utf8(",\"bid\":"@);
    assert(encode_utf8(",\"bid\":"@) =~= seq![44u8, 34, 98, 105, 100, 34, 58]);
}

proof fn lemma_ask_bytes()
    ensures
        encode_utf8(",\"ask\":"@) == seq![44u8, 34, 97, 115, 107, 34, 58],
{
    reveal_strlit(",\"ask\":");
    is_ascii_chars_encode_utf8(",\"ask\":"@);
    assert(encode_utf8(",\"ask\":"@) =~= seq![44u8, 34, 97, 115, 107, 34, 58]);
}

proof fn lemma_px_bytes()
    ensures
        encode_utf8("{\"px\":\""@) == seq![123u8, 34, 112, 120, 34, 58, 34],
{
    reveal_strlit("{\"px\":\"");
    is_ascii_chars_encode_utf8("{\"px\":\""@);
    assert(encode_utf8("{\"px\":\""@) =~= seq![123u8, 34, 112, 120, 34, 58, 34]);
}

proof fn lemma_sz_bytes()
    ensures
        encode_utf8("\",\"sz\":\""@) == seq![34u8, 44, 34, 115, 122, 34, 58, 34],
{
    reveal_strlit("\",\"sz\":\"");
    is_ascii_chars_encode_utf8("\",\"sz\":\""@);
    assert(encode_utf8("\",\"sz\":\""@) =~= seq![34u8, 44, 34, 115, 122, 34, 58, 34]);
}

proof fn lemma_n_bytes()
    ensures
        encode_utf8("\",\"n\":"@) == seq![34u8, 44, 34, 110, 34, 58],
{
    reveal_strlit("\",\"n\":");
    is_ascii_chars_encode_utf8("\",\"n\":"@);
    assert(encode_utf8("\",\"n\":"@) =~= seq![34u8, 44, 34, 110, 34, 58]);
}

proof fn lemma_close_bytes()
    ensures
        encode_utf8("}"@) == seq![125u8],
{
    reveal_strlit("}");
    is_ascii_chars_encode_utf8("}"@);
    assert(encode_utf8("}"@) =~= seq![125u8]);
}

proof fn lemma_end_bytes()
    ensures
        encode_utf8("}}"@) == seq![125u8, 125],
{
    reveal_strlit("}}");
    is_ascii_chars_encode_utf8("}}"@);
    assert(encode_utf8("}}"@) =~= seq![125u8, 125]);
}

proof fn lemma_k_time_bytes()
    ensures
        encode_utf8("\"time\":"@) == seq![34u8, 116, 105, 109, 101, 34, 58],
{
    reveal_strlit("\"time\":");
    is_ascii_chars_encode_utf8("\"time\":"@);
    assert(encode_utf8("\"time\":"@) =~= seq![34u8, 116, 105, 109, 101, 34, 58]);
}

proof fn lemma_k_bbo_bytes()
    ensures
        encode_utf8("\"bbo\":"@) == seq![34u8, 98, 98, 111, 34, 58],
{
    reveal_strlit("\"bbo\":");
    is_ascii_chars_encode_utf8("\"bbo\":"@);
    assert(encode_utf8("\"bbo\":"@) =~= seq![34u8, 98, 98, 111, 34, 58]);
}

proof fn lemma_k_bid_bytes()
    ensures
        encode_utf8("\"bid\":"@) == seq![34u8, 98, 105, 100, 34, 58],
{
    reveal_strlit("\"bid\":");
    is_ascii_chars_encode_utf8("\"bid\":"@);
    assert(encode_utf8("\"bid\":"@) =~= seq![34u8, 98, 105, 100, 34, 58]);
}

proof fn lemma_k_ask_bytes()
    ensures
        encode_utf8("\"ask\":"@) == seq![34u8, 97, 115, 107, 34, 58],
{
    reveal_strlit("\"ask\":");
    is_ascii_chars_encode_utf8("\"ask\":"@);
    assert(encode_utf8("\"ask\":"@) =~= seq![34u8, 97, 115, 107, 34, 58]);
}

proof fn lemma_k_px_bytes()
    ensures
        encode_utf8("\"px\":"@) == seq![34u8, 112, 120, 34, 58],
{
    reveal_strlit("\"px\":");
    is_ascii_chars_encode_utf8("\"px\":"@);
    assert(encode_utf8("\"px\":"@) =~= seq![34u8, 112, 120, 34, 58]);
}

proof fn lemma_k_sz_bytes()
    ensures
        encode_utf8("\"sz\":"@) == seq![34u8, 115, 122, 34, 58],
{
    reveal_strlit("\"sz\":");
    is_ascii_chars_encode_utf8("\"sz\":"@);
    assert(encode_utf8("\"sz\":"@) =~= seq![34u8, 115, 122, 34, 58]);
}

proof fn lemma_k_n_bytes()
    ensures
        encode_utf8("\"n\":"@) == seq![34u8, 110, 34, 58],
{
    reveal_strlit("\"n\":");
    is_ascii_chars_encode_utf8("\"n\":"@);
    assert(encode_utf8("\"n\":"@) =~= seq![34u8, 110, 34, 58]);
}

proof fn lemma_channel_bytes()
    ensures
        encode_utf8("\"channel\":\"bbo\""@) == seq![34u8, 99, 104, 97, 110, 110, 101, 108, 34, 58, 34, 98, 98, 111, 34],
{
    reveal_strlit("\"channel\":\"bbo\"");
    is_ascii_chars_encode_utf8("\"channel\":\"bbo\""@);
    assert(encode_utf8("\"channel\":\"bbo\""@) =~= seq![34u8, 99, 104, 97, 110, 110, 101, 108, 34, 58, 34, 98, 98, 111, 34]);
}

/// The bytes of a decimal number: digits and a point.
spec fn plain_bytes(s: Seq<u8>) -> bool {
    forall|i: int| 0 <= i < s.len() ==> is_digit(#[trigger] s[i]) || s[i] == 46
}

proof fn lemma_decimal_is_plain(s: Seq<u8>)
    requires
        decimal_parts(s) is Some,
    ensures
        s.len() > 0,
        plain_bytes(s),
{
    match find(s, point()) {
        None => {},
        Some(p) => {
            let at = choose|at: int| matches_at(s, point(), at);
            lemma_find(s, point(), at);
            assert(s.subrange(p, p + 1)[0] == point()[0]);
            assert forall|i: int| 0 <= i < s.len() implies is_digit(#[trigger] s[i]) || s[i]
                == 46 by {
                if i < p {
                    assert(is_digit(s.take(p)[i]));
                } else if i > p {
                    assert(is_digit(s.skip(p + 1)[i - p - 1]));
                }
            }
        },
    }
}

/// Where a needle of at least two bytes stands, its first two bytes stand.
proof fn lemma_two_bytes(s: Seq<u8>, needle: Seq<u8>, at: int)
    requires
        matches_at(s, needle, at),
    ensures
        forall|k: int| 0 <= k < needle.len() ==> #[trigger] needle[k] == s[at + k],
{
    assert forall|k: int| 0 <= k < needle.len() implies #[trigger] needle[k] == s[at + k] by {
        assert(s.subrange(at, at + needle.len())[k] == s[at + k]);
    }
}

proof fn lemma_no_blanks(s: Seq<u8>)
    requires
        s.len() > 0 ==> s[0] != 32,
    ensures
        skip_blanks(s) == s,
{
}

/// A value in quotes is read up to its closing quote.
proof fn lemma_quoted_token(s: Seq<u8>, value: Seq<u8>, rest: Seq<u8>)
    requires
        s == seq![34u8] + value + seq![34u8] + rest,
        plain_bytes(value),
    ensures
        token(s) == Some(value),
{
    lemma_no_blanks(s);
    let inner = s.drop_first();
    let at = value.len() as int;
    assert(inner =~= value + seq![34u8] + rest);
    assert(inner.subrange(at, at + 1) =~= seq![34u8]);
    assert forall|j: int| 0 <= j < at implies !matches_at(inner, seq![34u8], j) by {
        if matches_at(inner, seq![34u8], j) {
            lemma_two_bytes(inner, seq![34u8], j);
            assert(seq![34u8][0] == inner[j]);
            assert(inner[j] == value[j]);
        }
    }
    lemma_found_at(inner, seq![34u8], at);
    assert(inner.take(at) =~= value);
}

/// Digits that end a text are read to its end.
proof fn lemma_bare_digits(s: Seq<u8>)
    requires
        all_digits(s),
    ensures
        bare_len(s) == s.len(),
    decreases s.len(),
{
    if s.len() > 0 {
        assert(is_digit(s[0]));
        assert forall|i: int| 0 <= i < s.drop_first().len() implies is_digit(
            #[trigger] s.drop_first()[i],
        ) by {
            assert(is_digit(s[i + 1]));
        }
        lemma_bare_digits(s.drop_first());
    }
}

/// The inside of a rendered side.
spec fn object_bytes(px: Seq<u8>, sz: Seq<u8>, n: Seq<u8>) -> Seq<u8> {
    seq![34u8, 112, 120, 34, 58, 34] + px + seq![34u8, 44, 34, 115, 122, 34, 58, 34] + sz
        + seq![34u8, 44, 34, 110, 34, 58] + n
}

proof fn lemma_px_field(px: Seq<u8>, sz: Seq<u8>, n: Seq<u8>)
    requires
        plain_bytes(px),
    ensures
        field(object_bytes(px, sz, n), encode_utf8("\"px\":"@)) == Some(px),
{
    lemma_k_px_bytes();
    let s = object_bytes(px, sz, n);
    let key = encode_utf8("\"px\":"@);
    assert(s.subrange(0, 5) =~= key);
    assert(first_at(s, key, 0));
    lemma_found_at(s, key, 0);
    let rest = seq![44u8, 34, 115, 122, 34, 58, 34] + sz + seq![34u8, 44, 34, 110, 34, 58] + n;
    assert(s.skip(5) =~= seq![34u8] + px + seq![34u8] + rest);
    lemma_quoted_token(s.skip(5), px, rest);
}

proof fn lemma_sz_field(px: Seq<u8>, sz: Seq<u8>, n: Seq<u8>)
    requires
        plain_bytes(px),
        px.len() > 0,
        plain_bytes(sz),
    ensures
        field(object_bytes(px, sz, n), encode_utf8("\"sz\":"@)) == Some(sz),
{
    lemma_k_sz_bytes();
    let s = object_bytes(px, sz, n);
    let key = encode_utf8("\"sz\":"@);
    let at = 8 + px.len() as int;
    assert(s.subrange(at, at + 5) =~= key);
    assert forall|j: int| 0 <= j < at implies !matches_at(s, key, j) by {
        if matches_at(s, key, j) {
            lemma_two_bytes(s, key, j);
            assert(key[0] == s[j] && key[1] == s[j + 1]);
            if 6 <= j < 6 + px.len() {
                assert(s[j] == px[j - 6]);
            } else if j == 5 {
                assert(s[6] == px[0]);
            }
        }
    }
    lemma_found_at(s, key, at);
    let rest = seq![44u8, 34, 110, 34, 58] + n;
    assert(s.skip(at + 5) =~= seq![34u8] + sz + seq![34u8] + rest);
    lemma_quoted_token(s.skip(at + 5), sz, rest);
}

proof fn lemma_n_field(px: Seq<u8>, sz: Seq<u8>, n: Seq<u8>)
    requires
        plain_bytes(px),
        px.len() > 0,
        plain_bytes(sz),
        sz.len() > 0,
        all_digits(n),
        n.len() > 0,
    ensures
        field(object_bytes(px, sz, n), encode_utf8("\"n\":"@)) == Some(n),
{
    lemma_k_n_bytes();
    let s = object_bytes(px, sz, n);
    let key = encode_utf8("\"n\":"@);
    let b = 14 + px.len() as int;
    let at = b + sz.len() as int + 2;
    assert(s.subrange(at, at + 4) =~= key);
    assert forall|j: int| 0 <= j < at implies !matches_at(s, key, j) by {
        if matches_at(s, key, j) {
            lemma_two_bytes(s, key, j);
            assert(key[0] == s[j] && key[1] == s[j + 1]);
            if 6 <= j < 6 + px.len() {
                assert(s[j] == px[j - 6]);
            } else if j == 5 {
                assert(s[6] == px[0]);
            } else if b <= j < b + sz.len() {
                assert(s[j] == sz[j - b]);
            } else if j == b - 1 {
                assert(s[b] == sz[0]);
            }
        }
    }
    lemma_found_at(s, key, at);
    let v = s.skip(at + 4);
    assert(v =~= n);
    assert(is_digit(n[0]));
    lemma_no_blanks(v);
    lemma_bare_digits(n);
    assert(n.take(n.len() as int) =~= n);
}

/// A rendered side is read back as the numbers that it was rendered from.
proof fn lemma_side_read_back(px: Seq<u8>, sz: Seq<u8>, n: u64, rest: Seq<u8>)
    requires
        normal(px) is Some,
        normal(sz) is Some,
    ensures
        ({
            let digits = encode_utf8(decimal(n as nat));
            let s = seq![123u8] + object_bytes(px, sz, digits) + seq![125u8] + rest;
            side_at(s) == Some(
                (
                    Some(LevelView { px: normal(px).unwrap(), sz: normal(sz).unwrap(), n }),
                    s.len() - rest.len(),
                ),
            )
        }),
{
    lemma_decimal(n as nat);
    let digits = encode_utf8(decimal(n as nat));
    let object = object_bytes(px, sz, digits);
    let s = seq![123u8] + object + seq![125u8] + rest;
    let close = seq![125u8];
    lemma_decimal_is_plain(px);
    lemma_decimal_is_plain(sz);
    let at = 1 + object.len() as int;
    assert(s.subrange(at, at + 1) =~= close);
    assert forall|j: int| 0 <= j < at implies !matches_at(s, close, j) by {
        if matches_at(s, close, j) {
            lemma_two_bytes(s, close, j);
            assert(close[0] == s[j]);
            if j > 0 {
                let k = j - 1;
                assert(s[j] == object[k]);
                let b = 14 + px.len() as int;
                let c = b + 6 + sz.len() as int;
                if 6 <= k < 6 + px.len() {
                    assert(object[k] == px[k - 6]);
                } else if b <= k < b + sz.len() {
                    assert(object[k] == sz[k - b]);
                } else if c <= k {
                    assert(object[k] == digits[k - c]);
                    assert(is_digit(digits[k - c]));
                }
            }
        }
    }
    lemma_found_at(s, close, at);
    assert(s.subrange(1, at) =~= object);
    lemma_px_field(px, sz, digits);
    lemma_sz_field(px, sz, digits);
    lemma_n_field(px, sz, digits);
}

/// The bytes of a message up to the coin.
spec fn head_bytes() -> Seq<u8> {
    seq![123u8, 34, 99, 104, 97, 110, 110, 101, 108, 34, 58, 34, 98, 98, 111, 34, 44, 34, 100, 97, 116, 97, 34, 58, 123, 34, 99, 111, 105, 110, 34, 58, 34]
}

/// The bytes between the coin and the time.
spec fn time_bytes() -> Seq<u8> {
    seq![34u8, 44, 34, 116, 105, 109, 101, 34, 58]
}

/// The keys that a reader looks for in a whole message.
spec fn message_key(key: Seq<u8>) -> bool {
    ||| key == seq![34u8, 116, 105, 109, 101, 34, 58]
    ||| key == seq![34u8, 98, 98, 111, 34, 58]
    ||| key == seq![34u8, 98, 105, 100, 34, 58]
    ||| key == seq![34u8, 97, 115, 107, 34, 58]
}

/// No key stands before the end of the coin, unless the coin holds it.
proof fn lemma_no_key_up_to_coin(c: Seq<u8>, tail: Seq<u8>, key: Seq<u8>, j: int)
    requires
        message_key(key),
        !occurs(seq![34u8] + c, key),
        tail.len() >= 2,
        tail[0] == 34,
        tail[1] == 44,
        0 <= j < 33 + c.len(),
    ensures
        !matches_at(head_bytes() + c + tail, key, j),
{
    let s = head_bytes() + c + tail;
    if matches_at(s, key, j) {
        lemma_two_bytes(s, key, j);
        if j < 32 {
            assert(key[0] == s[j] && key[1] == s[j + 1] && key[2] == s[j + 2] && key[5] == s[j
                + 5]);
            assert(forall|i: int| 0 <= i < 33 ==> s[i] == #[trigger] head_bytes()[i]);
            assert(head_bytes()[j] == s[j]);
            if j == 11 {
                assert(head_bytes()[16] == s[16]);
                assert(head_bytes()[13] == s[13]);
            }
            assert(head_bytes()[j + 1] == s[j + 1] || j == 32);
        } else {
            let q = seq![34u8] + c;
            let end = 33 + c.len() as int;
            assert(forall|i: int| 0 <= i < q.len() ==> #[trigger] q[i] == s[32 + i]);
            if j + key.len() <= end {
                assert(q.subrange(j - 32, j - 32 + key.len()) =~= s.subrange(j, j + key.len()));
                assert(matches_at(q, key, j - 32));
            } else {
                let k = end - j;
                assert(s[end] == 34 && s[end + 1] == 44);
                assert(key[k] == s[j + k]);
                if k + 1 < key.len() {
                    assert(key[k + 1] == s[j + k + 1]);
                }
            }
        }
    }
}

/// A side whose price and size denote numbers.
pub open spec fn has_numbers(side: Option<L2Level>) -> bool {
    match side {
        Some(level) => decimal_parts(encode_utf8(level.px@)) is Some && decimal_parts(
            encode_utf8(level.sz@),
        ) is Some,
        None => true,
    }
}

/// The numbers of a side.
pub open spec fn side_numbers(side: Option<L2Level>) -> Option<LevelView> {
    match side {
        Some(level) => Some(
            LevelView {
                px: normal(encode_utf8(level.px@)).unwrap(),
                sz: normal(encode_utf8(level.sz@)).unwrap(),
                n: level.n,
            },
        ),
        None => None,
    }
}

/// The coin, with the quote that stands before it, holds `key`. No name of a coin does.
pub open spec fn coin_holds_key(coin: Seq<char>, key: Seq<u8>) -> bool {
    occurs(seq![34u8] + encode_utf8(coin), key)
}

spec fn level_bytes(level: L2Level) -> Seq<u8> {
    seq![123u8] + object_bytes(
        encode_utf8(level.px@),
        encode_utf8(level.sz@),
        encode_utf8(decimal(level.n as nat)),
    ) + seq![125u8]
}

spec fn side_bytes(label: Seq<u8>, side: Option<L2Level>) -> Seq<u8> {
    match side {
        Some(level) => label + level_bytes(level),
        None => Seq::empty(),
    }
}

spec fn bid_label() -> Seq<u8> {
    seq![44u8, 34, 98, 105, 100, 34, 58]
}

spec fn ask_label() -> Seq<u8> {
    seq![44u8, 34, 97, 115, 107, 34, 58]
}

proof fn lemma_level_bytes(level: L2Level)
    ensures
        encode_utf8(level_json(level)) == level_bytes(level),
{
    let a = "{\"px\":\""@;
    let b = level.px@;
    let c = "\",\"sz\":\""@;
    let d = level.sz@;
    let e = "\",\"n\":"@;
    let f = decimal(level.n as nat);
    let g = "}"@;
    lemma_encode_concat(a, b);
    lemma_encode_concat(a + b, c);
    lemma_encode_concat(a + b + c, d);
    lemma_encode_concat(a + b + c + d, e);
    lemma_encode_concat(a + b + c + d + e, f);
    lemma_encode_concat(a + b + c + d + e + f, g);
    lemma_px_bytes();
    lemma_sz_bytes();
    lemma_n_bytes();
    lemma_close_bytes();
    assert(encode_utf8(level_json(level)) =~= level_bytes(level));
}

proof fn lemma_side_bytes(label: Seq<char>, side: Option<L2Level>)
    ensures
        encode_utf8(side_json(label, side)) == side_bytes(encode_utf8(label), side),
{
    match side {
        Some(level) => {
            lemma_encode_concat(label, level_json(level));
            lemma_level_bytes(level);
        },
        None => {
            assert(encode_utf8(Seq::<char>::empty()) =~= Seq::<u8>::empty());
        },
    }
}

/// The bytes of a rendered update.
proof fn lemma_message_bytes(u: BboBookUpdate)
    ensures
        encode_utf8(update_json(u)) == head_bytes() + encode_utf8(u.coin@) + (time_bytes()
            + encode_utf8(decimal(u.time as nat)) + side_bytes(bid_label(), u.bid) + side_bytes(
            ask_label(),
            u.ask,
        ) + seq![125u8, 125]),
{
    let a = "{\"channel\":\"bbo\",\"data\":{\"coin\":\""@;
    let b = u.coin@;
    let c = "\",\"time\":"@;
    let d = decimal(u.time as nat);
    let e = side_json(",\"bid\":"@, u.bid);
    let f = side_json(",\"ask\":"@, u.ask);
    let g = "}}"@;
    lemma_encode_concat(a, b);
    lemma_encode_concat(a + b, c);
    lemma_encode_concat(a + b + c, d);
    lemma_encode_concat(a + b + c + d, e);
    lemma_encode_concat(a + b + c + d + e, f);
    lemma_encode_concat(a + b + c + d + e + f, g);
    lemma_head_bytes();
    lemma_time_bytes();
    lemma_end_bytes();
    lemma_bid_bytes();
    lemma_ask_bytes();
    lemma_side_bytes(",\"bid\":"@, u.bid);
    lemma_side_bytes(",\"ask\":"@, u.ask);
    assert(encode_utf8(update_json(u)) =~= head_bytes() + encode_utf8(u.coin@) + (time_bytes()
        + encode_utf8(decimal(u.time as nat)) + side_bytes(bid_label(), u.bid) + side_bytes(
        ask_label(),
        u.ask,
    ) + seq![125u8, 125]));
}

/// The time is found behind the coin.
proof fn lemma_time_found(c: Seq<u8>, d: Seq<u8>, after: Seq<u8>, key: Seq<u8>)
    requires
        key == seq![34u8, 116, 105, 109, 101, 34, 58],
        !occurs(seq![34u8] + c, key),
    ensures
        find(head_bytes() + c + (time_bytes() + d + after), key) == Some(35 + c.len() as int),
{
    let tail = time_bytes() + d + after;
    let s = head_bytes() + c + tail;
    let at = 35 + c.len() as int;
    assert(s.subrange(at, at + 7) =~= key);
    assert forall|j: int| 0 <= j < at implies !matches_at(s, key, j) by {
        if j < 33 + c.len() {
            lemma_no_key_up_to_coin(c, tail, key, j);
        } else if matches_at(s, key, j) {
            lemma_two_bytes(s, key, j);
            assert(key[0] == s[j] && key[1] == s[j + 1]);
            assert(s[j] == tail[j - 33 - c.len()]);
            assert(s[j + 1] == tail[j + 1 - 33 - c.len()]);
        }
    }
    lemma_found_at(s, key, at);
}

/// Digits are read up to the first byte that is none.
proof fn lemma_number_read(d: Seq<u8>, after: Seq<u8>)
    requires
        all_digits(d),
        d.len() > 0,
        after.len() > 0,
        !is_digit(after[0]),
    ensures
        leading_number(d + after) == number(d),
{
    let v = d + after;
    assert(is_digit(d[0]));
    lemma_no_blanks(v);
    assert(v.take(d.len() as int) =~= d);
    lemma_digit_run(v, d.len());
}

proof fn lemma_behind_time(u: BboBookUpdate, after: Seq<u8>)
    requires
        after == side_bytes(bid_label(), u.bid) + side_bytes(ask_label(), u.ask) + seq![125u8, 125],
    ensures
        after.len() > 0,
        !is_digit(after[0]),
{
    assert(after[0] == 44 || after[0] == 125);
}

/// The time of a message is read from the digits that stand in its place.
proof fn lemma_time_read(c: Seq<u8>, time: u64, after: Seq<u8>)
    requires
        !occurs(seq![34u8] + c, time_key()),
        after.len() > 0,
        !is_digit(after[0]),
    ensures
        message_time(
            head_bytes() + c + (time_bytes() + encode_utf8(decimal(time as nat)) + after),
        ) == Some(time),
{
    lemma_k_time_bytes();
    lemma_decimal(time as nat);
    let d = encode_utf8(decimal(time as nat));
    let s = head_bytes() + c + (time_bytes() + d + after);
    lemma_time_found(c, d, after, time_key());
    assert(s.skip(42 + c.len() as int) =~= d + after);
    lemma_number_read(d, after);
}

/// A rendered update is read back with the time that it has, whatever its sides, as
/// long as the coin does not hold the key of the time itself.
pub proof fn rendered_time_is_read_back(u: BboBookUpdate)
    requires
        !coin_holds_key(u.coin@, time_key()),
    ensures
        message_time(encode_utf8(update_json(u))) == Some(u.time),
{
    let c = encode_utf8(u.coin@);
    let d = encode_utf8(decimal(u.time as nat));
    let bid = side_bytes(bid_label(), u.bid);
    let ask = side_bytes(ask_label(), u.ask);
    let after = bid + ask + seq![125u8, 125];
    assert(encode_utf8(update_json(u)) == head_bytes() + c + (time_bytes() + d + after)) by {
        lemma_message_bytes(u);
        assert(time_bytes() + d + after =~= time_bytes() + d + bid + ask + seq![125u8, 125]);
    }
    lemma_behind_time(u, after);
    lemma_time_read(c, u.time, after);
}

/// In a rendered side only the quote of its own key is followed by an `a` or a `b`.
proof fn lemma_quotes_in_level(level: L2Level, j: int)
    requires
        has_numbers(Some(level)),
        0 <= j < level_bytes(level).len(),
        level_bytes(level)[j] == 34,
    ensures
        j + 1 < level_bytes(level).len(),
        level_bytes(level)[j + 1] != 97,
        level_bytes(level)[j + 1] != 98,
{
    let px = encode_utf8(level.px@);
    let sz = encode_utf8(level.sz@);
    let n = encode_utf8(decimal(level.n as nat));
    lemma_decimal_is_plain(px);
    lemma_decimal_is_plain(sz);
    lemma_decimal(level.n as nat);
    let object = object_bytes(px, sz, n);
    let s = level_bytes(level);
    assert(s == seq![123u8] + object + seq![125u8]);
    if j > 0 && j < s.len() - 1 {
        let k = j - 1;
        assert(s[j] == object[k]);
        let b = 14 + px.len() as int;
        let c = b + 6 + sz.len() as int;
        if 6 <= k < 6 + px.len() {
            assert(object[k] == px[k - 6]);
        } else if k == 5 {
            assert(object[6] == px[0]);
            assert(s[j + 1] == object[6]);
        } else if b <= k < b + sz.len() {
            assert(object[k] == sz[k - b]);
        } else if k == b - 1 {
            assert(object[b] == sz[0]);
            assert(s[j + 1] == object[b]);
        } else if c <= k {
            assert(object[k] == n[k - c]);
            assert(is_digit(n[k - c]));
        } else {
            assert(s[j + 1] == object[k + 1]);
        }
    }
}

/// The part of a message behind the coin.
spec fn tail_bytes(d: Seq<u8>, bid: Option<L2Level>, ask: Option<L2Level>) -> Seq<u8> {
    time_bytes() + d + side_bytes(bid_label(), bid) + side_bytes(ask_label(), ask) + seq![
        125u8,
        125,
    ]
}

/// Behind the coin, only the keys of the two sides start with an `a` or a `b`.
proof fn lemma_quotes_in_tail(d: Seq<u8>, bid: Option<L2Level>, ask: Option<L2Level>, k: int)
    requires
        all_digits(d),
        has_numbers(bid),
        has_numbers(ask),
        0 <= k,
        k + 1 < tail_bytes(d, bid, ask).len(),
        tail_bytes(d, bid, ask)[k] == 34,
        tail_bytes(d, bid, ask)[k + 1] == 97 || tail_bytes(d, bid, ask)[k + 1] == 98,
    ensures
        ({
            let t = tail_bytes(d, bid, ask);
            let at_bid = 9 + d.len() as int;
            let at_ask = at_bid + side_bytes(bid_label(), bid).len();
            ||| k == at_bid + 1 && bid is Some && t[k + 1] == 98 && t[k + 2] == 105
            ||| k == at_ask + 1 && ask is Some && t[k + 1] == 97
        }),
{
    let t = tail_bytes(d, bid, ask);
    let b1 = side_bytes(bid_label(), bid);
    let b2 = side_bytes(ask_label(), ask);
    let at_bid = 9 + d.len() as int;
    let at_ask = at_bid + b1.len();
    if k < 9 {
        assert(t[k] == time_bytes()[k]);
        assert(k < 8 ==> t[k + 1] == time_bytes()[k + 1]);
    } else if k < at_bid {
        assert(t[k] == d[k - 9]);
        assert(is_digit(d[k - 9]));
    } else if k < at_ask {
        let level = bid.unwrap();
        let j = k - at_bid;
        assert(t[k] == b1[j]);
        assert(j + 1 < b1.len() ==> t[k + 1] == b1[j + 1]);
        if j >= 7 {
            assert(b1[j] == level_bytes(level)[j - 7]);
            lemma_quotes_in_level(level, j - 7);
            assert(b1[j + 1] == level_bytes(level)[j - 6]);
        } else {
            assert(b1[j] == bid_label()[j]);
            if j == 1 {
                assert(b1[3] == bid_label()[3]);
                assert(t[k + 2] == b1[3]);
            }
            if j < 6 {
                assert(b1[j + 1] == bid_label()[j + 1]);
            }
        }
    } else if k < at_ask + b2.len() {
        let level = ask.unwrap();
        let j = k - at_ask;
        assert(t[k] == b2[j]);
        assert(j + 1 < b2.len() ==> t[k + 1] == b2[j + 1]);
        if j >= 7 {
            assert(b2[j] == level_bytes(level)[j - 7]);
            lemma_quotes_in_level(level, j - 7);
            assert(b2[j + 1] == level_bytes(level)[j - 6]);
        } else {
            assert(b2[j] == ask_label()[j]);
            if j < 6 {
                assert(b2[j + 1] == ask_label()[j + 1]);
            }
        }
    } else {
        assert(t[k] == 125);
    }
}

/// Where a key of a side or of the array stands in a rendered update: only where the
/// side itself was rendered.
proof fn lemma_keys_in_message(
    c: Seq<u8>,
    d: Seq<u8>,
    bid: Option<L2Level>,
    ask: Option<L2Level>,
    key: Seq<u8>,
    j: int,
)
    requires
        all_digits(d),
        has_numbers(bid),
        has_numbers(ask),
        message_key(key),
        key[1] != 116,
        !occurs(seq![34u8] + c, key),
        matches_at(head_bytes() + c + tail_bytes(d, bid, ask), key, j),
    ensures
        ({
            let at_bid = 42 + c.len() + d.len();
            let at_ask = at_bid + side_bytes(bid_label(), bid).len();
            ||| j == at_bid + 1 && bid is Some && key[1] == 98 && key[2] == 105
            ||| j == at_ask + 1 && ask is Some && key[1] == 97
        }),
{
    let t = tail_bytes(d, bid, ask);
    let s = head_bytes() + c + t;
    let k = j - 33 - c.len();
    assert(t[0] == time_bytes()[0] && t[1] == time_bytes()[1]);
    if k < 0 {
        lemma_no_key_up_to_coin(c, t, key, j);
    } else {
        lemma_two_bytes(s, key, j);
        assert(key[0] == s[j] && key[1] == s[j + 1] && key[2] == s[j + 2]);
        assert(s[j] == t[k] && s[j + 1] == t[k + 1] && s[j + 2] == t[k + 2]);
        lemma_quotes_in_tail(d, bid, ask, k);
    }
}

/// A side that stands in a text behind its key is read back.
proof fn lemma_side_in_text(
    pre: Seq<u8>,
    label: Seq<u8>,
    level: L2Level,
    post: Seq<u8>,
    key: Seq<u8>,
)
    requires
        has_numbers(Some(level)),
        key.len() == 6,
        label == seq![44u8] + key,
        find(pre + (label + level_bytes(level)) + post, key) == Some(pre.len() as int + 1),
    ensures
        keyed_side(pre + (label + level_bytes(level)) + post, key) == Some(
            side_numbers(Some(level)),
        ),
{
    let s = pre + (label + level_bytes(level)) + post;
    let px = encode_utf8(level.px@);
    let sz = encode_utf8(level.sz@);
    let n = encode_utf8(decimal(level.n as nat));
    let v = seq![123u8] + object_bytes(px, sz, n) + seq![125u8] + post;
    assert(s.skip(pre.len() as int + 7) =~= v);
    lemma_no_blanks(v);
    lemma_side_read_back(px, sz, level.n, post);
}

/// The key of a rendered side is found where that side was rendered.
proof fn lemma_bid_read(c: Seq<u8>, d: Seq<u8>, bid: Option<L2Level>, ask: Option<L2Level>)
    requires
        all_digits(d),
        has_numbers(bid),
        has_numbers(ask),
        !occurs(seq![34u8] + c, encode_utf8("\"bid\":"@)),
    ensures
        keyed_side(head_bytes() + c + tail_bytes(d, bid, ask), encode_utf8("\"bid\":"@)) == Some(
            side_numbers(bid),
        ),
{
    lemma_k_bid_bytes();
    let key = encode_utf8("\"bid\":"@);
    let s = head_bytes() + c + tail_bytes(d, bid, ask);
    let pre = head_bytes() + c + time_bytes() + d;
    let post = side_bytes(ask_label(), ask) + seq![125u8, 125];
    match bid {
        None => {
            if occurs(s, key) {
                let j = choose|j: int| matches_at(s, key, j);
                lemma_keys_in_message(c, d, bid, ask, key, j);
            }
        },
        Some(level) => {
            let at = pre.len() as int + 1;
            assert(s =~= pre + (bid_label() + level_bytes(level)) + post);
            assert(s.subrange(at, at + 6) =~= key);
            assert forall|j: int| 0 <= j < at implies !matches_at(s, key, j) by {
                if matches_at(s, key, j) {
                    lemma_keys_in_message(c, d, bid, ask, key, j);
                }
            }
            lemma_found_at(s, key, at);
            assert(bid_label() =~= seq![44u8] + key);
            lemma_side_in_text(pre, bid_label(), level, post, key);
        },
    }
}

proof fn lemma_ask_read(c: Seq<u8>, d: Seq<u8>, bid: Option<L2Level>, ask: Option<L2Level>)
    requires
        all_digits(d),
        has_numbers(bid),
        has_numbers(ask),
        !occurs(seq![34u8] + c, encode_utf8("\"ask\":"@)),
    ensures
        keyed_side(head_bytes() + c + tail_bytes(d, bid, ask), encode_utf8("\"ask\":"@)) == Some(
            side_numbers(ask),
        ),
{
    lemma_k_ask_bytes();
    let key = encode_utf8("\"ask\":"@);
    let s = head_bytes() + c + tail_bytes(d, bid, ask);
    let b1 = side_bytes(bid_label(), bid);
    let pre = head_bytes() + c + time_bytes() + d + b1;
    let post = seq![125u8, 125];
    match ask {
        None => {
            if occurs(s, key) {
                let j = choose|j: int| matches_at(s, key, j);
                lemma_keys_in_message(c, d, bid, ask, key, j);
            }
        },
        Some(level) => {
            let at = pre.len() as int + 1;
            assert(s =~= pre + (ask_label() + level_bytes(level)) + post);
            assert(s.subrange(at, at + 6) =~= key);
            assert forall|j: int| 0 <= j < at implies !matches_at(s, key, j) by {
                if matches_at(s, key, j) {
                    lemma_keys_in_message(c, d, bid, ask, key, j);
                }
            }
            lemma_found_at(s, key, at);
            assert(ask_label() =~= seq![44u8] + key);
            lemma_side_in_text(pre, ask_label(), level, post, key);
        },
    }
}

proof fn lemma_message_is_bbo(c: Seq<u8>, tail: Seq<u8>)
    ensures
        occurs(head_bytes() + c + tail, bbo_channel()),
{
    lemma_channel_bytes();
    let s = head_bytes() + c + tail;
    assert(s.subrange(1, 16) =~= bbo_channel());
    assert(matches_at(s, bbo_channel(), 1));
}

/// A rendered update is read back with the sides that it has: an empty side as an
/// empty one, the other as the numbers that its price, its size and its count denote.
/// Price and size have to be numbers, and the coin must not hold a key itself.
pub proof fn rendered_sides_are_read_back(u: BboBookUpdate)
    requires
        has_numbers(u.bid),
        has_numbers(u.ask),
        !coin_holds_key(u.coin@, encode_utf8("\"bbo\":"@)),
        !coin_holds_key(u.coin@, encode_utf8("\"bid\":"@)),
        !coin_holds_key(u.coin@, encode_utf8("\"ask\":"@)),
    ensures
        content(encode_utf8(update_json(u))) == Some((side_numbers(u.bid), side_numbers(u.ask))),
{
    let c = encode_utf8(u.coin@);
    let d = encode_utf8(decimal(u.time as nat));
    let tail = tail_bytes(d, u.bid, u.ask);
    let s = head_bytes() + c + tail;
    assert(encode_utf8(update_json(u)) == s) by {
        lemma_message_bytes(u);
    }
    assert(all_digits(d)) by {
        lemma_decimal(u.time as nat);
    }
    lemma_message_is_bbo(c, tail);
    let key = encode_utf8("\"bbo\":"@);
    assert(!occurs(s, key)) by {
        lemma_k_bbo_bytes();
        if occurs(s, key) {
            let j = choose|j: int| matches_at(s, key, j);
            lemma_keys_in_message(c, d, u.bid, u.ask, key, j);
        }
    }
    lemma_bid_read(c, d, u.bid, u.ask);
    lemma_ask_read(c, d, u.bid, u.ask);
}

/// So many blanks.
pub open spec fn blanks(n: nat) -> Seq<u8> {
    Seq::new(n, |i: int| 32u8)
}

proof fn lemma_behind_blanks(n: nat, rest: Seq<u8>)
    requires
        rest.len() > 0 ==> rest[0] != 32,
    ensures
        skip_blanks(blanks(n) + rest) == rest,
{
    let s = blanks(n) + rest;
    lemma_skip_blanks(s, n);
    assert(s.skip(n as int) =~= rest);
}

/// A side in an array: an object, or `null` where the side is empty.
pub open spec fn side_value(side: Option<L2Level>) -> Seq<char> {
    match side {
        Some(level) => level_json(level),
        None => "null"@,
    }
}

/// The two sides in an array, with so many blanks around the brackets and the comma.
pub open spec fn sides_array(
    bid: Option<L2Level>,
    ask: Option<L2Level>,
    n: (nat, nat, nat, nat, nat),
) -> Seq<u8> {
    blanks(n.0) + seq![91u8] + blanks(n.1) + encode_utf8(side_value(bid)) + blanks(n.2) + seq![
        44u8,
    ] + blanks(n.3) + encode_utf8(side_value(ask)) + blanks(n.4) + seq![93u8]
}

proof fn lemma_null_bytes()
    ensures
        encode_utf8("null"@) == seq![110u8, 117, 108, 108],
{
    reveal_strlit("null");
    is_ascii_chars_encode_utf8("null"@);
    assert(encode_utf8("null"@) =~= seq![110u8, 117, 108, 108]);
}

proof fn lemma_side_value(side: Option<L2Level>, rest: Seq<u8>)
    requires
        has_numbers(side),
    ensures
        side_at(encode_utf8(side_value(side)) + rest) == Some(
            (side_numbers(side), encode_utf8(side_value(side)).len() as int),
        ),
        encode_utf8(side_value(side)).len() > 0,
        encode_utf8(side_value(side))[0] != 32,
{
    match side {
        Some(level) => {
            lemma_level_bytes(level);
            let px = encode_utf8(level.px@);
            let sz = encode_utf8(level.sz@);
            let n = encode_utf8(decimal(level.n as nat));
            lemma_side_read_back(px, sz, level.n, rest);
            assert(level_bytes(level) + rest =~= seq![123u8] + object_bytes(px, sz, n) + seq![
                125u8,
            ] + rest);
        },
        None => {
            lemma_null_bytes();
            let s = encode_utf8("null"@) + rest;
            assert(s.subrange(0, 4) =~= encode_utf8("null"@));
        },
    }
}

#[verifier::rlimit(40)]
proof fn lemma_array_read(
    bid: Option<L2Level>,
    ask: Option<L2Level>,
    n: (nat, nat, nat, nat, nat),
    post: Seq<u8>,
)
    requires
        has_numbers(bid),
        has_numbers(ask),
    ensures
        array_content(skip_blanks(sides_array(bid, ask, n) + post)) == Some(
            (side_numbers(bid), side_numbers(ask)),
        ),
{
    let b = encode_utf8(side_value(bid));
    let a = encode_utf8(side_value(ask));
    let r4 = seq![93u8] + post;
    let r3 = blanks(n.4) + r4;
    let second = a + r3;
    let r2 = seq![44u8] + (blanks(n.3) + second);
    let r1 = blanks(n.2) + r2;
    let first = b + r1;
    let r0 = seq![91u8] + (blanks(n.1) + first);
    assert(sides_array(bid, ask, n) + post =~= blanks(n.0) + r0);
    lemma_side_value(bid, r1);
    lemma_side_value(ask, r3);
    lemma_behind_blanks(n.0, r0);
    assert(r0.drop_first() =~= blanks(n.1) + first);
    lemma_behind_blanks(n.1, first);
    assert(first.skip(b.len() as int) =~= r1);
    lemma_behind_blanks(n.2, r2);
    assert(r2.drop_first() =~= blanks(n.3) + second);
    lemma_behind_blanks(n.3, second);
    assert(second.skip(a.len() as int) =~= r3);
    lemma_behind_blanks(n.4, r4);
}

/// Two sides in an array behind `"bbo":` are read as the numbers that they hold, each with
/// its own price, size and count, whatever else stands in the message.
#[verifier::rlimit(40)]
pub proof fn sides_in_an_array_are_read(
    pre: Seq<u8>,
    bid: Option<L2Level>,
    ask: Option<L2Level>,
    n: (nat, nat, nat, nat, nat),
    post: Seq<u8>,
)
    requires
        has_numbers(bid),
        has_numbers(ask),
        occurs(
            pre + encode_utf8("\"bbo\":"@) + sides_array(bid, ask, n) + post,
            encode_utf8("\"channel\":\"bbo\""@),
        ),
        first_at(
            pre + encode_utf8("\"bbo\":"@) + sides_array(bid, ask, n) + post,
            encode_utf8("\"bbo\":"@),
            pre.len() as int,
        ),
    ensures
        content(pre + encode_utf8("\"bbo\":"@) + sides_array(bid, ask, n) + post) == Some(
            (side_numbers(bid), side_numbers(ask)),
        ),
{
    let key = encode_utf8("\"bbo\":"@);
    let s = pre + key + sides_array(bid, ask, n) + post;
    lemma_found_at(s, key, pre.len() as int);
    assert(s.skip(pre.len() as int + key.len()) =~= sides_array(bid, ask, n) + post);
    lemma_array_read(bid, ask, n, post);
}

/// An update as a message of the official feed.
pub open spec fn official_json(u: BboBookUpdate) -> Seq<char> {
    "{\"channel\":\"bbo\",\"data\":{\"coin\":\""@ + u.coin@ + "\",\"time\":"@ + decimal(
        u.time as nat,
    ) + ",\"bbo\":["@ + side_value(u.bid) + ","@ + side_value(u.ask) + "]}}"@
}

#[verifier::rlimit(40)]
proof fn lemma_official_bytes(u: BboBookUpdate)
    ensures
        encode_utf8(official_json(u)) == head_bytes() + encode_utf8(u.coin@) + (time_bytes()
            + encode_utf8(decimal(u.time as nat)) + (seq![44u8] + encode_utf8("\"bbo\":"@)
            + sides_array(u.bid, u.ask, (0, 0, 0, 0, 0)) + seq![125u8, 125])),
{
    let a = "{\"channel\":\"bbo\",\"data\":{\"coin\":\""@;
    let b = u.coin@;
    let c = "\",\"time\":"@;
    let d = decimal(u.time as nat);
    let e = ",\"bbo\":["@;
    let f = side_value(u.bid);
    let g = ","@;
    let h = side_value(u.ask);
    let k = "]}}"@;
    lemma_encode_concat(a, b);
    lemma_encode_concat(a + b, c);
    lemma_encode_concat(a + b + c, d);
    lemma_encode_concat(a + b + c + d, e);
    lemma_encode_concat(a + b + c + d + e, f);
    lemma_encode_concat(a + b + c + d + e + f, g);
    lemma_encode_concat(a + b + c + d + e + f + g, h);
    lemma_encode_concat(a + b + c + d + e + f + g + h, k);
    lemma_head_bytes();
    lemma_time_bytes();
    lemma_k_bbo_bytes();
    reveal_strlit(",\"bbo\":[");
    reveal_strlit(",");
    reveal_strlit("]}}");
    is_ascii_chars_encode_utf8(e);
    is_ascii_chars_encode_utf8(g);
    is_ascii_chars_encode_utf8(k);
    assert(encode_utf8(e) =~= seq![44u8, 34, 98, 98, 111, 34, 58, 91]);
    assert(encode_utf8(g) =~= seq![44u8]);
    assert(encode_utf8(k) =~= seq![93u8, 125, 125]);
    let x = encode_utf8(f);
    let y = encode_utf8(h);
    assert(sides_array(u.bid, u.ask, (0, 0, 0, 0, 0)) =~= seq![91u8] + x + seq![44u8] + y + seq![
        93u8,
    ]);
    let tail = seq![44u8, 34, 98, 98, 111, 34, 58, 91] + x + seq![44u8] + y + seq![93u8, 125, 125];
    assert(seq![44u8] + encode_utf8("\"bbo\":"@) + sides_array(u.bid, u.ask, (0, 0, 0, 0, 0))
        + seq![125u8, 125] =~= tail);
    let p = encode_utf8(a) + encode_utf8(b) + encode_utf8(c) + encode_utf8(d);
    assert(encode_utf8(official_json(u)) =~= p + tail);
    assert(p + tail =~= head_bytes() + encode_utf8(b) + (time_bytes() + encode_utf8(d) + tail));
}

/// The key of the array is found behind the time.
#[verifier::rlimit(40)]
proof fn lemma_array_found(c: Seq<u8>, d: Seq<u8>, key: Seq<u8>, rest: Seq<u8>)
    requires
        key == seq![34u8, 98, 98, 111, 34, 58],
        !occurs(seq![34u8] + c, key),
        all_digits(d),
    ensures
        first_at(
            head_bytes() + c + (time_bytes() + d + (seq![44u8] + key + rest)),
            key,
            43 + c.len() as int + d.len(),
        ),
{
    let after = seq![44u8] + key + rest;
    let tail = time_bytes() + d + after;
    let s = head_bytes() + c + tail;
    let at = 43 + c.len() as int + d.len();
    assert(s.subrange(at, at + 6) =~= key);
    assert forall|j: int| 0 <= j < at implies !matches_at(s, key, j) by {
        if j < 33 + c.len() {
            lemma_no_key_up_to_coin(c, tail, key, j);
        } else if matches_at(s, key, j) {
            lemma_two_bytes(s, key, j);
            assert(key[0] == s[j] && key[1] == s[j + 1]);
            let t = j - 33 - c.len();
            assert(s[j] == tail[t]);
            assert(s[j + 1] == tail[t + 1]);
            if 9 <= t < 9 + d.len() {
                assert(tail[t] == d[t - 9]);
                assert(is_digit(d[t - 9]));
            } else if t == 9 + d.len() {
                assert(tail[t] == 44);
            } else {
                assert(tail[t] == time_bytes()[t]);
                if t + 1 < 9 {
                    assert(tail[t + 1] == time_bytes()[t + 1]);
                }
            }
        }
    }
}

proof fn lemma_regroup(
    h: Seq<u8>,
    c: Seq<u8>,
    t: Seq<u8>,
    d: Seq<u8>,
    q: Seq<u8>,
    k: Seq<u8>,
    x: Seq<u8>,
    e: Seq<u8>,
)
    ensures
        h + c + (t + d + (q + k + x + e)) == (h + c + t + d + q) + k + x + e,
        h + c + (t + d + (q + k + x + e)) == h + c + (t + d + (q + k + (x + e))),
        (h + c + t + d + q).len() == h.len() + c.len() + t.len() + d.len() + q.len(),
{
    assert(q + k + x + e =~= q + k + (x + e));
    assert(t + d + (q + k + x + e) =~= t + d + q + k + x + e);
    assert(h + c + (t + d + q + k + x + e) =~= h + c + t + d + q + k + x + e);
}

/// Where the array stands in a message of the official feed.
#[verifier::rlimit(40)]
proof fn lemma_array_place(c: Seq<u8>, d: Seq<u8>, array: Seq<u8>, s: Seq<u8>, pre: Seq<u8>)
    requires
        all_digits(d),
        !occurs(seq![34u8] + c, encode_utf8("\"bbo\":"@)),
        s == head_bytes() + c + (time_bytes() + d + (seq![44u8] + encode_utf8("\"bbo\":"@) + array
            + seq![125u8, 125])),
        pre == head_bytes() + c + time_bytes() + d + seq![44u8],
    ensures
        s == pre + encode_utf8("\"bbo\":"@) + array + seq![125u8, 125],
        occurs(s, encode_utf8("\"channel\":\"bbo\""@)),
        first_at(s, encode_utf8("\"bbo\":"@), pre.len() as int),
{
    let key = encode_utf8("\"bbo\":"@);
    let post = seq![125u8, 125];
    lemma_message_is_bbo(c, time_bytes() + d + (seq![44u8] + key + array + post));
    lemma_k_bbo_bytes();
    lemma_array_found(c, d, key, array + post);
    lemma_regroup(head_bytes(), c, time_bytes(), d, seq![44u8], key, array, post);
    assert(pre.len() == 43 + c.len() + d.len());
}

/// A message of the official feed is read back with the time and the sides that it has:
/// each side as the numbers that its own price, size and count denote. It says the same as
/// the message of a self-hosted node about the same update.
#[verifier::rlimit(40)]
pub proof fn official_messages_are_read_back(u: BboBookUpdate)
    requires
        has_numbers(u.bid),
        has_numbers(u.ask),
        !coin_holds_key(u.coin@, encode_utf8("\"time\":"@)),
        !coin_holds_key(u.coin@, encode_utf8("\"bbo\":"@)),
        !coin_holds_key(u.coin@, encode_utf8("\"bid\":"@)),
        !coin_holds_key(u.coin@, encode_utf8("\"ask\":"@)),
    ensures
        message_time(encode_utf8(official_json(u))) == Some(u.time),
        content(encode_utf8(official_json(u))) == Some((side_numbers(u.bid), side_numbers(u.ask))),
        content(encode_utf8(official_json(u))) == content(encode_utf8(update_json(u))),
{
    let c = encode_utf8(u.coin@);
    let d = encode_utf8(decimal(u.time as nat));
    let after = seq![44u8] + encode_utf8("\"bbo\":"@) + sides_array(
        u.bid,
        u.ask,
        (0, 0, 0, 0, 0),
    ) + seq![125u8, 125];
    lemma_official_bytes(u);
    lemma_decimal(u.time as nat);
    assert(after[0] == 44);
    lemma_time_read(c, u.time, after);
    let pre = head_bytes() + c + time_bytes() + d + seq![44u8];
    let array = sides_array(u.bid, u.ask, (0, 0, 0, 0, 0));
    let s = encode_utf8(official_json(u));
    lemma_array_place(c, d, array, s, pre);
    sides_in_an_array_are_read(pre, u.bid, u.ask, (0, 0, 0, 0, 0), seq![125u8, 125]);
    rendered_sides_are_read_back(u);
}

/// A message that does not name the channel says nothing about bid and ask.
pub proof fn only_the_bbo_channel_is_read(s: Seq<u8>)
    requires
        !occurs(s, encode_utf8("\"channel\":\"bbo\""@)),
    ensures
        content(s) is None,
{
}

/// A rendered update starts with its channel, its coin and its time.
pub proof fn a_rendered_update_names_its_coin(u: BboBookUpdate)
    ensures
        ("{\"channel\":\"bbo\",\"data\":{\"coin\":\""@ + u.coin@ + "\",\"time\":"@ + decimal(
            u.time as nat,
        )).is_prefix_of(update_json(u)),
{
}

/// A value in quotes behind the first key of its name is the value of the field, whatever
/// else stands in the object.
pub proof fn a_quoted_field_is_read(
    pre: Seq<u8>,
    key: Seq<u8>,
    n: nat,
    value: Seq<u8>,
    post: Seq<u8>,
)
    requires
        first_at(
            pre + key + blanks(n) + seq![34u8] + value + seq![34u8] + post,
            key,
            pre.len() as int,
        ),
        forall|i: int| 0 <= i < value.len() ==> #[trigger] value[i] != 34,
    ensures
        field(pre + key + blanks(n) + seq![34u8] + value + seq![34u8] + post, key) == Some(value),
{
    let s = pre + key + blanks(n) + seq![34u8] + value + seq![34u8] + post;
    let inner = value + seq![34u8] + post;
    let w = seq![34u8] + inner;
    lemma_found_at(s, key, pre.len() as int);
    assert(s.skip(pre.len() as int + key.len()) =~= blanks(n) + w);
    lemma_behind_blanks(n, w);
    assert(w.drop_first() =~= inner);
    let at = value.len() as int;
    assert(inner.subrange(at, at + 1) =~= seq![34u8]);
    assert forall|j: int| 0 <= j < at implies !matches_at(inner, seq![34u8], j) by {
        if matches_at(inner, seq![34u8], j) {
            assert(inner.subrange(j, j + 1)[0] == seq![34u8][0]);
            assert(inner[j] == value[j]);
        }
    }
    lemma_found_at(inner, seq![34u8], at);
    assert(inner.take(at) =~= value);
}

/// A number without quotes behind the first key of its name is the value of the field, up
/// to a comma, a bracket, a blank or the end.
pub proof fn a_bare_field_is_read(
    pre: Seq<u8>,
    key: Seq<u8>,
    n: nat,
    digits: Seq<u8>,
    post: Seq<u8>,
)
    requires
        first_at(pre + key + blanks(n) + digits + post, key, pre.len() as int),
        digits.len() > 0,
        all_digits(digits),
        post.len() > 0 ==> post[0] == 44 || post[0] == 125 || post[0] == 93 || post[0] == 32,
    ensures
        field(pre + key + blanks(n) + digits + post, key) == Some(digits),
{
    let s = pre + key + blanks(n) + digits + post;
    let w = digits + post;
    lemma_found_at(s, key, pre.len() as int);
    assert(s.skip(pre.len() as int + key.len()) =~= blanks(n) + w);
    assert(is_digit(digits[0]));
    lemma_behind_blanks(n, w);
    lemma_bare_up_to(digits, post);
    assert(w.take(digits.len() as int) =~= digits);
}

proof fn lemma_bare_up_to(digits: Seq<u8>, post: Seq<u8>)
    requires
        all_digits(digits),
        post.len() > 0 ==> post[0] == 44 || post[0] == 125 || post[0] == 93 || post[0] == 32,
    ensures
        bare_len(digits + post) == digits.len(),
    decreases digits.len(),
{
    let w = digits + post;
    if digits.len() == 0 {
        assert(w =~= post);
    } else {
        let rest = digits.drop_first();
        assert(is_digit(digits[0]));
        assert(w[0] == digits[0]);
        assert(w.drop_first() =~= rest + post);
        assert forall|i: int| 0 <= i < rest.len() implies is_digit(#[trigger] rest[i]) by {
            assert(is_digit(digits[i + 1]));
        }
        lemma_bare_up_to(rest, post);
    }
}

/// An object with a price, a size and a count is a side with these numbers, in whatever
/// order and with whatever else they stand in it.
pub proof fn an_object_is_read_as_its_numbers(
    object: Seq<u8>,
    px: Seq<u8>,
    sz: Seq<u8>,
    n: Seq<u8>,
    post: Seq<u8>,
)
    requires
        field(object, encode_utf8("\"px\":"@)) == Some(px),
        field(object, encode_utf8("\"sz\":"@)) == Some(sz),
        field(object, encode_utf8("\"n\":"@)) == Some(n),
        decimal_parts(px) is Some,
        decimal_parts(sz) is Some,
        n.len() > 0 && all_digits(n) && digits_value(n) <= u64::MAX,
        forall|i: int| 0 <= i < object.len() ==> #[trigger] object[i] != 125,
    ensures
        side_at(seq![123u8] + object + seq![125u8] + post) == Some(
            (
                Some(
                    LevelView {
                        px: normal(px)->0,
                        sz: normal(sz)->0,
                        n: digits_value(n) as u64,
                    },
                ),
                object.len() as int + 2,
            ),
        ),
{
    let s = seq![123u8] + object + seq![125u8] + post;
    let at = object.len() as int + 1;
    assert(s.subrange(at, at + 1) =~= seq![125u8]);
    assert forall|j: int| 0 <= j < at implies !matches_at(s, seq![125u8], j) by {
        if matches_at(s, seq![125u8], j) {
            assert(s.subrange(j, j + 1)[0] == seq![125u8][0]);
            if j > 0 {
                assert(s[j] == object[j - 1]);
            }
        }
    }
    lemma_found_at(s, seq![125u8], at);
    assert(s.subrange(1, at) =~= object);
}

/// The side stands behind the first key of its name, or the key is missing and the side is
/// empty.
pub open spec fn holds_side(
    s: Seq<u8>,
    key: Seq<u8>,
    side: Option<L2Level>,
    pre: Seq<u8>,
    n: nat,
    post: Seq<u8>,
) -> bool {
    ||| side is None && !occurs(s, key)
    ||| s == pre + key + blanks(n) + encode_utf8(side_value(side)) + post && first_at(
        s,
        key,
        pre.len() as int,
    )
}

proof fn lemma_holds_side(
    s: Seq<u8>,
    key: Seq<u8>,
    side: Option<L2Level>,
    pre: Seq<u8>,
    n: nat,
    post: Seq<u8>,
)
    requires
        holds_side(s, key, side, pre, n, post),
        has_numbers(side),
    ensures
        keyed_side(s, key) == Some(side_numbers(side)),
{
    if !(side is None && !occurs(s, key)) {
        let v = encode_utf8(side_value(side)) + post;
        lemma_found_at(s, key, pre.len() as int);
        lemma_side_value(side, post);
        assert(s.skip(pre.len() as int + key.len()) =~= blanks(n) + v);
        lemma_behind_blanks(n, v);
    }
}

/// Two sides behind their own keys are read as the numbers that they hold, each with its own
/// price, size and count, wherever in the message they stand and whatever else stands in it.
pub proof fn sides_behind_their_keys_are_read(
    s: Seq<u8>,
    bid: Option<L2Level>,
    bid_at: (Seq<u8>, nat, Seq<u8>),
    ask: Option<L2Level>,
    ask_at: (Seq<u8>, nat, Seq<u8>),
)
    requires
        has_numbers(bid),
        has_numbers(ask),
        occurs(s, encode_utf8("\"channel\":\"bbo\""@)),
        !occurs(s, encode_utf8("\"bbo\":"@)),
        holds_side(s, encode_utf8("\"bid\":"@), bid, bid_at.0, bid_at.1, bid_at.2),
        holds_side(s, encode_utf8("\"ask\":"@), ask, ask_at.0, ask_at.1, ask_at.2),
    ensures
        content(s) == Some((side_numbers(bid), side_numbers(ask))),
{
    lemma_holds_side(s, encode_utf8("\"bid\":"@), bid, bid_at.0, bid_at.1, bid_at.2);
    lemma_holds_side(s, encode_utf8("\"ask\":"@), ask, ask_at.0, ask_at.1, ask_at.2);
}

} // verus!
