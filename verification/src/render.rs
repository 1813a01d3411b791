//! How the tiles and the status of the snake game are drawn: each tile as one
//! character, the status as a line of text.

use crate::traits::Renderble;
use vstd::prelude::*;
use vstd::string::StringExecFns;
use vstd::string::StrSliceExecFns;

verus! {

/// What a cell of the game board holds.
#[derive(Clone, Copy, Debug, PartialEq, Eq, Structural)]
pub enum Tile {
    Corpse,
    Empty,
    Food,
    Snake,
}

/// The score and the difficulty of a game.
#[derive(Clone, Copy, Debug, PartialEq, Eq, Structural)]
pub struct Status {
    pub score: u32,
    pub diff: u32,
}

impl Tile {
    /// The character of the tile.
    pub open spec fn glyph(self) -> char {
        match self {
            Tile::Corpse => 'x',
            Tile::Empty => ' ',
            Tile::Food => '+',
            Tile::Snake => 'o',
        }
    }
}

impl Renderble for Tile {
    type Primitive = char;

    fn render(&self) -> (r: Vec<char>)
        ensures
            r@ == seq![self.glyph()],
    {
        let c = match self {
            Tile::Corpse => 'x',
            Tile::Empty => ' ',
            Tile::Food => '+',
            Tile::Snake => 'o',
        };
        let mut r = Vec::new();
        r.push(c);
        assert(r@ =~= seq![self.glyph()]);
        r
    }
}

/// The decimal digits of a number.
pub open spec fn decimal(n: nat) -> Seq<char>
    decreases n,
{
    if n < 10 {
        seq![('0' as nat + n) as char]
    } else {
        decimal(n / 10).push(('0' as nat + n % 10) as char)
    }
}

/// A text with spaces before it, as many as it is short of `width`.
pub open spec fn padded(text: Seq<char>, width: nat) -> Seq<char> {
    if text.len() >= width {
        text
    } else {
        Seq::new((width - text.len()) as nat, |i: int| ' ') + text
    }
}

/// The text of a status.
pub open spec fn status_text(status: Status) -> Seq<char> {
    "Status: "@ + padded(decimal(status.score as nat), 4) + " Difficulty: "@ + padded(
        decimal(status.diff as nat),
        4,
    )
}

/// `format!` of std with `{:>4}` on an unsigned number: its decimal digits,
/// right-aligned with spaces in a field of four columns, and not cut where
/// they are more.
#[verifier::external_body]
fn right_aligned(n: u32) -> (text: String)
    ensures
        text@ == padded(decimal(n as nat), 4),
{
    format!("{:>4}", n)
}

impl Renderble for Status {
    type Primitive = char;

    fn render(&self) -> (r: Vec<char>)
        ensures
            r@ == status_text(*self),
    {
        let mut text = String::from_str("Status: ");
        let score = right_aligned(self.score);
        text.append(score.as_str());
        text.append(" Difficulty: ");
        let diff = right_aligned(self.diff);
        text.append(diff.as_str());
        assert(text@ =~= status_text(*self));
        let line = text.as_str();
        let n = line.unicode_len();
        let mut r: Vec<char> = Vec::new();
        let mut i: usize = 0;
        while i < n
            invariant
                n == line@.len(),
                i <= n,
                r@ == line@.take(i as int),
            decreases n - i,
        {
            r.push(line.get_char(i));
            assert(line@.take(i as int).push(line@[i as int]) =~= line@.take(i + 1));
            i += 1;
        }
        assert(line@.take(n as int) =~= line@);
        r
    }
}

} // verus!
