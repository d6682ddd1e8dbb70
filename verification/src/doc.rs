//! A text in which some numbers still wait to be printed: seconds, milliseconds and
//! percentages, which are rounded when the text is written out.

use vstd::prelude::*;

use crate::text::{decimal, push_decimal};

verus! {

/// A piece of a text.
pub enum Piece {
    /// characters as they are
    Text(String),
    /// nanoseconds, to be printed in whole seconds
    Seconds(u64),
    /// nanoseconds, to be printed in milliseconds with three decimals
    Millis(i64),
    /// a share, to be printed in percent with one decimal
    Percent {
        part: u64,
        whole: u64,
    },
}

/// What stands at one place of a text: a character, or a number that waits to be
/// printed.
pub enum Glyph {
    /// by its code point
    Char(int),
    Seconds(u64),
    Millis(i64),
    Percent(u64, u64),
}

/// Characters in a text.
pub open spec fn text(s: Seq<char>) -> Seq<Glyph> {
    Seq::new(s.len(), |i: int| Glyph::Char(s[i] as int))
}

/// Nanoseconds in a text, as seconds.
pub open spec fn seconds(ns: u64) -> Seq<Glyph> {
    seq![Glyph::Seconds(ns)]
}

/// Nanoseconds in a text, as milliseconds.
pub open spec fn millis(ns: i64) -> Seq<Glyph> {
    seq![Glyph::Millis(ns)]
}

/// A share in a text.
pub open spec fn percent(part: u64, whole: u64) -> Seq<Glyph> {
    seq![Glyph::Percent(part, whole)]
}

/// What a piece puts into a text.
pub open spec fn piece_glyphs(p: Piece) -> Seq<Glyph> {
    match p {
        Piece::Text(s) => text(s@),
        Piece::Seconds(ns) => seconds(ns),
        Piece::Millis(ns) => millis(ns),
        Piece::Percent { part, whole } => percent(part, whole),
    }
}

/// What some pieces, one behind the other, put into a text.
pub open spec fn glyphs(pieces: Seq<Piece>) -> Seq<Glyph>
    decreases pieces.len(),
{
    if pieces.len() == 0 {
        Seq::empty()
    } else {
        glyphs(pieces.drop_last()) + piece_glyphs(pieces.last())
    }
}

/// A text, piece by piece.
pub struct Doc {
    pub pieces: Vec<Piece>,
}

impl View for Doc {
    type V = Seq<Glyph>;

    open spec fn view(&self) -> Seq<Glyph> {
        glyphs(self.pieces@)
    }
}

impl Doc {
    /// An empty text.
    pub fn new() -> (d: Self)
        ensures
            d@ == Seq::<Glyph>::empty(),
    {
        Doc { pieces: Vec::new() }
    }

    fn push(&mut self, p: Piece)
        ensures
            final(self)@ == old(self)@ + piece_glyphs(p),
    {
        self.pieces.push(p);
        assert(self.pieces@.drop_last() =~= old(self).pieces@);
    }

    /// Appends characters.
    pub fn push_text(&mut self, s: &str)
        ensures
            final(self)@ == old(self)@ + text(s@),
    {
        self.push(Piece::Text(String::from_str(s)));
    }

    /// Appends a number in decimal.
    pub fn push_number(&mut self, n: u64)
        ensures
            final(self)@ == old(self)@ + text(decimal(n as nat)),
    {
        let mut s = String::new();
        push_decimal(&mut s, n);
        assert(s@ =~= decimal(n as nat));
        self.push(Piece::Text(s));
    }

    /// Appends nanoseconds, as seconds.
    pub fn push_seconds(&mut self, ns: u64)
        ensures
            final(self)@ == old(self)@ + seconds(ns),
    {
        self.push(Piece::Seconds(ns));
    }

    /// Appends nanoseconds, as milliseconds.
    pub fn push_millis(&mut self, ns: i64)
        ensures
            final(self)@ == old(self)@ + millis(ns),
    {
        self.push(Piece::Millis(ns));
    }

    /// Appends a share.
    pub fn push_percent(&mut self, part: u64, whole: u64)
        ensures
            final(self)@ == old(self)@ + percent(part, whole),
    {
        self.push(Piece::Percent { part, whole });
    }
}

/// A text shows its characters one by one.
pub proof fn a_text_shows_its_characters(s: Seq<char>, i: int)
    requires
        0 <= i < s.len(),
    ensures
        text(s).len() == s.len(),
        text(s)[i] == Glyph::Char(s[i] as int),
{
}

/// The pieces of a text show what they hold, one behind the other.
pub proof fn pieces_stand_one_behind_the_other(
    pieces: Seq<Piece>,
    s: String,
    ns: i64,
    secs: u64,
    part: u64,
    whole: u64,
)
    ensures
        glyphs(Seq::empty()) == Seq::<Glyph>::empty(),
        glyphs(pieces.push(Piece::Text(s))) == glyphs(pieces) + text(s@),
        glyphs(pieces.push(Piece::Millis(ns))) == glyphs(pieces).push(Glyph::Millis(ns)),
        glyphs(pieces.push(Piece::Seconds(secs))) == glyphs(pieces).push(Glyph::Seconds(secs)),
        glyphs(pieces.push(Piece::Percent { part, whole })) == glyphs(pieces).push(
            Glyph::Percent(part, whole),
        ),
{
    assert(pieces.push(Piece::Text(s)).drop_last() =~= pieces);
    assert(pieces.push(Piece::Millis(ns)).drop_last() =~= pieces);
    assert(pieces.push(Piece::Seconds(secs)).drop_last() =~= pieces);
    assert(pieces.push(Piece::Percent { part, whole }).drop_last() =~= pieces);
    assert(glyphs(pieces) + millis(ns) =~= glyphs(pieces).push(Glyph::Millis(ns)));
    assert(glyphs(pieces) + seconds(secs) =~= glyphs(pieces).push(Glyph::Seconds(secs)));
    assert(glyphs(pieces) + percent(part, whole) =~= glyphs(pieces).push(
        Glyph::Percent(part, whole),
    ));
}

/// A text is that of all its pieces.
pub proof fn a_text_is_that_of_its_pieces(d: Doc)
    ensures
        d@ == glyphs(d.pieces@),
{
}

} // verus!
