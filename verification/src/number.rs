//! Decimal numbers as texts: a normal form that two texts share exactly if they
//! denote the same number.

use vstd::arithmetic::power::{lemma_pow0, lemma_pow1, lemma_pow_adds, lemma_pow_positive, pow};
use vstd::prelude::*;

use crate::search::{
    all_digits, digits_value, find, find_bytes, is_digit, lemma_digits_value_grows, lemma_find,
    lemma_found_at, matches_at, occurs,
};

verus! {

/// The byte of a decimal point.
pub open spec fn point() -> Seq<u8> {
    seq![46u8]
}

/// The digits before and behind the point of a decimal number such as `70.25` or
/// `70`; `None` for any other text.
pub open spec fn decimal_parts(s: Seq<u8>) -> Option<(Seq<u8>, Seq<u8>)> {
    match find(s, point()) {
        None => if s.len() > 0 && all_digits(s) {
            Some((s, Seq::<u8>::empty()))
        } else {
            None
        },
        Some(p) => {
            let whole = s.take(p);
            let frac = s.skip(p + 1);
            if whole.len() > 0 && all_digits(whole) && frac.len() > 0 && all_digits(frac) {
                Some((whole, frac))
            } else {
                None
            }
        },
    }
}

/// `s` behind the zeros that it starts with.
pub open spec fn without_leading_zeros(s: Seq<u8>) -> Seq<u8>
    decreases s.len(),
{
    if s.len() > 0 && s[0] == 48 {
        without_leading_zeros(s.drop_first())
    } else {
        s
    }
}

/// `s` without the zeros that it ends with.
pub open spec fn without_trailing_zeros(s: Seq<u8>) -> Seq<u8>
    decreases s.len(),
{
    if s.len() > 0 && s.last() == 48 {
        without_trailing_zeros(s.drop_last())
    } else {
        s
    }
}

/// A decimal number in normal form, by its digits before and behind the point.
#[verifier::ext_equal]
pub struct DecimalView {
    pub whole: Seq<u8>,
    pub frac: Seq<u8>,
}

/// The normal form of the number that `s` denotes; `None` if it denotes none.
pub open spec fn normal(s: Seq<u8>) -> Option<DecimalView> {
    match decimal_parts(s) {
        None => None,
        Some((whole, frac)) => Some(
            DecimalView {
                whole: without_leading_zeros(whole),
                frac: without_trailing_zeros(frac),
            },
        ),
    }
}

/// `whole.frac` times ten to the number of digits in `frac`.
pub open spec fn scaled(whole: Seq<u8>, frac: Seq<u8>) -> nat {
    digits_value(whole + frac)
}

/// `a.0` point `a.1` and `b.0` point `b.1` are the same rational number.
pub open spec fn same_number(a: (Seq<u8>, Seq<u8>), b: (Seq<u8>, Seq<u8>)) -> bool {
    scaled(a.0, a.1) * pow(10, b.1.len()) == scaled(b.0, b.1) * pow(10, a.1.len())
}

proof fn lemma_value_concat(a: Seq<u8>, b: Seq<u8>)
    requires
        all_digits(a),
        all_digits(b),
    ensures
        digits_value(a + b) == digits_value(a) * pow(10, b.len()) + digits_value(b),
    decreases b.len(),
{
    if b.len() == 0 {
        assert(a + b =~= a);
        lemma_pow0(10);
    } else {
        assert((a + b).drop_last() =~= a + b.drop_last());
        lemma_value_concat(a, b.drop_last());
        let v = digits_value(a);
        let p = pow(10, (b.len() - 1) as nat);
        let w = digits_value(b.drop_last());
        lemma_pow_adds(10, (b.len() - 1) as nat, 1);
        lemma_pow1(10);
        assert((v * p + w) * 10 == v * (p * 10) + w * 10) by (nonlinear_arith);
        assert(is_digit(b.last()));
    }
}

proof fn lemma_value_bound(s: Seq<u8>)
    requires
        all_digits(s),
    ensures
        digits_value(s) < pow(10, s.len()),
    decreases s.len(),
{
    if s.len() == 0 {
        lemma_pow0(10);
    } else {
        lemma_value_bound(s.drop_last());
        lemma_pow_adds(10, (s.len() - 1) as nat, 1);
        lemma_pow1(10);
        assert(is_digit(s.last()));
    }
}

proof fn lemma_leading_zeros(s: Seq<u8>)
    requires
        all_digits(s),
    ensures
        all_digits(without_leading_zeros(s)),
        digits_value(without_leading_zeros(s)) == digits_value(s),
        without_leading_zeros(s).len() > 0 ==> without_leading_zeros(s)[0] != 48,
    decreases s.len(),
{
    if s.len() > 0 && s[0] == 48 {
        let zero = seq![48u8];
        assert forall|i: int| 0 <= i < s.drop_first().len() implies is_digit(
            #[trigger] s.drop_first()[i],
        ) by {
            assert(is_digit(s[i + 1]));
        }
        lemma_leading_zeros(s.drop_first());
        assert(s =~= zero + s.drop_first());
        lemma_value_concat(zero, s.drop_first());
        assert(zero.drop_last() =~= Seq::<u8>::empty());
        assert(digits_value(zero.drop_last()) == 0);
        assert(digits_value(zero) == 0);
    }
}

proof fn lemma_trailing_zeros(w: Seq<u8>, f: Seq<u8>)
    requires
        all_digits(f),
    ensures
        ({
            let t = without_trailing_zeros(f);
            &&& all_digits(t)
            &&& t.len() <= f.len()
            &&& digits_value(w + f) == digits_value(w + t) * pow(10, (f.len() - t.len()) as nat)
            &&& t.len() > 0 ==> t.last() != 48
        }),
    decreases f.len(),
{
    if f.len() > 0 && f.last() == 48 {
        let g = f.drop_last();
        assert forall|i: int| 0 <= i < g.len() implies is_digit(#[trigger] g[i]) by {
            assert(is_digit(f[i]));
        }
        lemma_trailing_zeros(w, g);
        let t = without_trailing_zeros(f);
        assert((w + f).drop_last() =~= w + g);
        let k = (g.len() - t.len()) as nat;
        lemma_pow_adds(10, k, 1);
        lemma_pow1(10);
        let v = digits_value(w + t) as int;
        let p = pow(10, k);
        assert((v * p) * 10 == v * (p * 10)) by (nonlinear_arith);
    } else {
        lemma_pow0(10);
    }
}

/// Digits of one length that spell one number are the same digits.
proof fn lemma_same_digits(s: Seq<u8>, t: Seq<u8>)
    requires
        all_digits(s),
        all_digits(t),
        s.len() == t.len(),
        digits_value(s) == digits_value(t),
    ensures
        s == t,
    decreases s.len(),
{
    if s.len() > 0 {
        assert(is_digit(s.last()) && is_digit(t.last()));
        assert forall|i: int| 0 <= i < s.len() - 1 implies is_digit(
            #[trigger] s.drop_last()[i],
        ) && is_digit(t.drop_last()[i]) by {
            assert(is_digit(s[i]) && is_digit(t[i]));
        }
        lemma_same_digits(s.drop_last(), t.drop_last());
        assert(s =~= s.drop_last().push(s.last()));
        assert(t =~= t.drop_last().push(t.last()));
    } else {
        assert(s =~= t);
    }
}

proof fn lemma_no_leading_zero_positive(s: Seq<u8>)
    requires
        all_digits(s),
        s.len() > 0,
        s[0] != 48,
    ensures
        digits_value(s) > 0,
{
    lemma_digits_value_grows(s, 1);
    let h = s.take(1);
    assert(is_digit(s[0]));
    assert(h.drop_last() =~= Seq::<u8>::empty());
    assert(h.last() == s[0]);
    assert(digits_value(h.drop_last()) == 0);
}

/// Digits without a leading zero that spell one number are the same digits.
proof fn lemma_same_natural(s: Seq<u8>, t: Seq<u8>)
    requires
        all_digits(s),
        all_digits(t),
        s.len() > 0 ==> s[0] != 48,
        t.len() > 0 ==> t[0] != 48,
        digits_value(s) == digits_value(t),
    ensures
        s == t,
    decreases s.len(),
{
    if s.len() == 0 {
        if t.len() > 0 {
            lemma_no_leading_zero_positive(t);
        }
        assert(s =~= t);
    } else if t.len() == 0 {
        lemma_no_leading_zero_positive(s);
    } else {
        assert(is_digit(s.last()) && is_digit(t.last()));
        assert forall|i: int| 0 <= i < s.len() - 1 implies is_digit(#[trigger] s.drop_last()[i]) by {
            assert(is_digit(s[i]));
        }
        assert forall|i: int| 0 <= i < t.len() - 1 implies is_digit(#[trigger] t.drop_last()[i]) by {
            assert(is_digit(t[i]));
        }
        lemma_same_natural(s.drop_last(), t.drop_last());
        assert(s =~= s.drop_last().push(s.last()));
        assert(t =~= t.drop_last().push(t.last()));
    }
}

/// A normal form: digits only, no zero in front and none at the end.
spec fn is_normal(d: DecimalView) -> bool {
    &&& all_digits(d.whole)
    &&& all_digits(d.frac)
    &&& d.whole.len() > 0 ==> d.whole[0] != 48
    &&& d.frac.len() > 0 ==> d.frac.last() != 48
}

/// A longer fraction in normal form is another number.
proof fn lemma_longer_fraction_differs(a: DecimalView, b: DecimalView)
    requires
        is_normal(a),
        is_normal(b),
        a.frac.len() < b.frac.len(),
    ensures
        !same_number((a.whole, a.frac), (b.whole, b.frac)),
{
    let va = scaled(a.whole, a.frac) as int;
    let vb = scaled(b.whole, b.frac) as int;
    let la = a.frac.len();
    let k = (b.frac.len() - la - 1) as nat;
    let p = pow(10, la);
    let q = pow(10, k);
    lemma_pow_adds(10, la, k + 1);
    lemma_pow_adds(10, k, 1);
    lemma_pow1(10);
    lemma_pow_positive(10, la);
    if va * pow(10, b.frac.len()) == vb * p {
        assert(va * (p * (q * 10)) == ((va * q) * 10) * p) by (nonlinear_arith);
        assert(vb == (va * q) * 10) by (nonlinear_arith)
            requires
                vb * p == ((va * q) * 10) * p,
                p > 0,
        ;
        let d = b.whole + b.frac;
        assert(d.last() == b.frac.last());
        assert(is_digit(b.frac.last()));
        assert(vb == digits_value(d.drop_last()) * 10 + (d.last() - 48));
        assert(vb % 10 == d.last() - 48);
        assert(vb % 10 == 0);
    }
}

/// Numbers in normal form are the same number only if they are the same digits.
proof fn lemma_normal_unique(a: DecimalView, b: DecimalView)
    requires
        is_normal(a),
        is_normal(b),
        same_number((a.whole, a.frac), (b.whole, b.frac)),
    ensures
        a == b,
{
    if a.frac.len() < b.frac.len() {
        lemma_longer_fraction_differs(a, b);
    } else if b.frac.len() < a.frac.len() {
        lemma_longer_fraction_differs(b, a);
    } else {
        let p = pow(10, a.frac.len());
        let wa = digits_value(a.whole) as int;
        let wb = digits_value(b.whole) as int;
        let fa = digits_value(a.frac) as int;
        let fb = digits_value(b.frac) as int;
        lemma_pow_positive(10, a.frac.len());
        lemma_value_concat(a.whole, a.frac);
        lemma_value_concat(b.whole, b.frac);
        lemma_value_bound(a.frac);
        lemma_value_bound(b.frac);
        assert(wa * p + fa == wb * p + fb) by (nonlinear_arith)
            requires
                (wa * p + fa) * p == (wb * p + fb) * p,
                p > 0,
        ;
        assert(wa == wb) by (nonlinear_arith)
            requires
                wa * p + fa == wb * p + fb,
                0 <= fa < p,
                0 <= fb < p,
        ;
        lemma_same_digits(a.frac, b.frac);
        lemma_same_natural(a.whole, b.whole);
    }
}

/// Bringing both numbers into normal form does not change whether they are the same.
proof fn lemma_normal_same_number(a: (Seq<u8>, Seq<u8>), b: (Seq<u8>, Seq<u8>))
    requires
        all_digits(a.0),
        all_digits(a.1),
        all_digits(b.0),
        all_digits(b.1),
    ensures
        same_number(a, b) <==> same_number(
            (without_leading_zeros(a.0), without_trailing_zeros(a.1)),
            (without_leading_zeros(b.0), without_trailing_zeros(b.1)),
        ),
{
    let ta = without_trailing_zeros(a.1);
    let tb = without_trailing_zeros(b.1);
    let wa = without_leading_zeros(a.0);
    let wb = without_leading_zeros(b.0);
    lemma_trailing_zeros(a.0, a.1);
    lemma_trailing_zeros(b.0, b.1);
    lemma_leading_zeros(a.0);
    lemma_leading_zeros(b.0);
    lemma_value_concat(a.0, ta);
    lemma_value_concat(b.0, tb);
    lemma_value_concat(wa, ta);
    lemma_value_concat(wb, tb);
    let va = scaled(wa, ta) as int;
    let vb = scaled(wb, tb) as int;
    let da = (a.1.len() - ta.len()) as nat;
    let db = (b.1.len() - tb.len()) as nat;
    let pda = pow(10, da);
    let pdb = pow(10, db);
    let pta = pow(10, ta.len());
    let ptb = pow(10, tb.len());
    lemma_pow_adds(10, ta.len(), da);
    lemma_pow_adds(10, tb.len(), db);
    lemma_pow_positive(10, da);
    lemma_pow_positive(10, db);
    assert((va * pda) * (ptb * pdb) == (va * ptb) * (pda * pdb)) by (nonlinear_arith);
    assert((vb * pdb) * (pta * pda) == (vb * pta) * (pda * pdb)) by (nonlinear_arith);
    assert(pda * pdb > 0) by (nonlinear_arith)
        requires
            pda > 0,
            pdb > 0,
    ;
    let c = pda * pdb;
    let x = va * ptb;
    let y = vb * pta;
    assert(x * c == y * c <==> x == y) by (nonlinear_arith)
        requires
            c > 0,
    ;
}

/// Two texts that denote numbers have the same normal form exactly if they denote
/// the same number: `70.0` and `70` do, `70.1` and `70` do not.
pub proof fn normal_form_is_the_number(s: Seq<u8>, t: Seq<u8>)
    requires
        decimal_parts(s) is Some,
        decimal_parts(t) is Some,
    ensures
        normal(s) == normal(t) <==> same_number(
            decimal_parts(s).unwrap(),
            decimal_parts(t).unwrap(),
        ),
{
    let a = decimal_parts(s).unwrap();
    let b = decimal_parts(t).unwrap();
    let na = normal(s).unwrap();
    let nb = normal(t).unwrap();
    lemma_leading_zeros(a.0);
    lemma_leading_zeros(b.0);
    lemma_trailing_zeros(a.0, a.1);
    lemma_trailing_zeros(b.0, b.1);
    lemma_normal_same_number(a, b);
    if same_number(a, b) {
        lemma_normal_unique(na, nb);
    }
}

/// A decimal number in normal form.
#[derive(Debug, PartialEq, Eq)]
pub struct Decimal {
    /// The digits before the point, without leading zeros.
    pub whole: Vec<u8>,
    /// The digits behind the point, without trailing zeros.
    pub frac: Vec<u8>,
}

impl View for Decimal {
    type V = DecimalView;

    open spec fn view(&self) -> DecimalView {
        DecimalView { whole: self.whole@, frac: self.frac@ }
    }
}

/// Whether the bytes of `s` from `from` to `end` are all digits.
fn are_digits(s: &[u8], from: usize, end: usize) -> (yes: bool)
    requires
        from <= end <= s@.len(),
    ensures
        yes == all_digits(s@.subrange(from as int, end as int)),
{
    let ghost part = s@.subrange(from as int, end as int);
    let mut i: usize = from;
    while i < end
        invariant
            from <= i <= end <= s@.len(),
            part == s@.subrange(from as int, end as int),
            forall|k: int| 0 <= k < i - from ==> is_digit(#[trigger] part[k]),
        decreases end - i,
    {
        assert(s@[i as int] == part[i - from]);
        if s[i] < 48 || s[i] > 57 {
            return false;
        }
        i += 1;
    }
    true
}

/// A copy of the bytes of `s` from `from` to `end`.
pub fn copy_range(s: &[u8], from: usize, end: usize) -> (v: Vec<u8>)
    requires
        from <= end <= s@.len(),
    ensures
        v@ == s@.subrange(from as int, end as int),
{
    let mut v: Vec<u8> = Vec::new();
    let mut i: usize = from;
    while i < end
        invariant
            from <= i <= end <= s@.len(),
            v@ == s@.subrange(from as int, i as int),
        decreases end - i,
    {
        v.push(s[i]);
        assert(v@ =~= s@.subrange(from as int, i + 1));
        i += 1;
    }
    v
}

/// The normal form of the digits of `s` from `from` to `point` and from `frac` to
/// `end`.
fn normal_form(s: &[u8], from: usize, point: usize, frac: usize, end: usize) -> (d: Decimal)
    requires
        from <= point <= s@.len(),
        frac <= end <= s@.len(),
    ensures
        d@ == (DecimalView {
            whole: without_leading_zeros(s@.subrange(from as int, point as int)),
            frac: without_trailing_zeros(s@.subrange(frac as int, end as int)),
        }),
{
    let ghost w = s@.subrange(from as int, point as int);
    let ghost f = s@.subrange(frac as int, end as int);
    let mut lo: usize = from;
    while lo < point && s[lo] == 48
        invariant
            from <= lo <= point <= s@.len(),
            without_leading_zeros(w) == without_leading_zeros(
                s@.subrange(lo as int, point as int),
            ),
        decreases point - lo,
    {
        assert(s@.subrange(lo as int, point as int).drop_first() =~= s@.subrange(
            lo + 1,
            point as int,
        ));
        lo += 1;
    }
    let mut hi: usize = end;
    while hi > frac && s[hi - 1] == 48
        invariant
            frac <= hi <= end <= s@.len(),
            without_trailing_zeros(f) == without_trailing_zeros(
                s@.subrange(frac as int, hi as int),
            ),
        decreases hi,
    {
        assert(s@.subrange(frac as int, hi as int).drop_last() =~= s@.subrange(
            frac as int,
            hi - 1,
        ));
        hi -= 1;
    }
    Decimal { whole: copy_range(s, lo, point), frac: copy_range(s, frac, hi) }
}

/// Reads a decimal number and brings it into normal form.
pub fn read_decimal(s: &[u8]) -> (d: Option<Decimal>)
    ensures
        match d {
            Some(d) => normal(s@) == Some(d@),
            None => normal(s@) is None,
        },
{
    let dot: [u8; 1] = [46];
    assert(dot@ =~= point());
    let len: usize = s.len();
    assert(s@.subrange(0, len as int) =~= s@);
    assert(s@.subrange(len as int, len as int) =~= Seq::<u8>::empty());
    match find_bytes(s, &dot) {
        None => {
            if len > 0 && are_digits(s, 0, len) {
                assert(without_trailing_zeros(Seq::<u8>::empty()) == Seq::<u8>::empty());
                Some(normal_form(s, 0, len, len, len))
            } else {
                None
            }
        },
        Some(p) => {
            assert(s@.subrange(0, p as int) =~= s@.take(p as int));
            assert(s@.subrange(p + 1, len as int) =~= s@.skip(p + 1));
            if p > 0 && are_digits(s, 0, p) && p + 1 < len && are_digits(s, p + 1, len) {
                Some(normal_form(s, 0, p, p + 1, len))
            } else {
                None
            }
        },
    }
}

/// Whether two byte strings are the same.
pub fn bytes_equal(a: &Vec<u8>, b: &Vec<u8>) -> (yes: bool)
    ensures
        yes == (a@ == b@),
{
    if a.len() != b.len() {
        return false;
    }
    let mut i: usize = 0;
    while i < a.len()
        invariant
            i <= a@.len() == b@.len(),
            forall|k: int| 0 <= k < i ==> a@[k] == b@[k],
        decreases a@.len() - i,
    {
        if a[i] != b[i] {
            return false;
        }
        i += 1;
    }
    assert(a@ =~= b@);
    true
}

impl Decimal {
    /// Whether two numbers in normal form are the same.
    pub fn same_as(&self, other: &Decimal) -> (yes: bool)
        ensures
            yes == (self@ == other@),
    {
        bytes_equal(&self.whole, &other.whole) && bytes_equal(&self.frac, &other.frac)
    }
}

/// Digits denote a number, and so do digits with a point and digits behind it; nothing
/// else does.
pub proof fn numbers_are_digits_around_a_point(s: Seq<u8>, whole: Seq<u8>, frac: Seq<u8>)
    ensures
        whole.len() > 0 && all_digits(whole) ==> decimal_parts(whole) == Some(
            (whole, Seq::<u8>::empty()),
        ),
        whole.len() > 0 && all_digits(whole) && frac.len() > 0 && all_digits(frac)
            ==> decimal_parts(whole + seq![46u8] + frac) == Some((whole, frac)),
        decimal_parts(s) matches Some((w, f)) ==> {
            &&& w.len() > 0 && all_digits(w) && all_digits(f)
            &&& s == if f.len() == 0 {
                w
            } else {
                w + seq![46u8] + f
            }
        },
{
    if whole.len() > 0 && all_digits(whole) {
        if occurs(whole, point()) {
            let at = choose|at: int| matches_at(whole, point(), at);
            assert(whole.subrange(at, at + 1)[0] == point()[0]);
            assert(is_digit(whole[at]));
        }
        if frac.len() > 0 && all_digits(frac) {
            let t = whole + seq![46u8] + frac;
            let p = whole.len() as int;
            assert(t.subrange(p, p + 1) =~= point());
            assert forall|j: int| 0 <= j < p implies !matches_at(t, point(), j) by {
                if matches_at(t, point(), j) {
                    assert(t.subrange(j, j + 1)[0] == point()[0]);
                    assert(is_digit(whole[j]));
                }
            }
            lemma_found_at(t, point(), p);
            assert(t.take(p) =~= whole);
            assert(t.skip(p + 1) =~= frac);
        }
    }
    if let Some((w, f)) = decimal_parts(s) {
        if let Some(p) = find(s, point()) {
            let at = choose|at: int| matches_at(s, point(), at);
            lemma_find(s, point(), at);
            assert(s.subrange(p, p + 1)[0] == point()[0]);
            assert(s =~= w + seq![46u8] + f);
        }
    }
}

} // verus!
