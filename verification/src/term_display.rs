//! A bordered screen of characters and a status line: where things go, and
//! the text that puts them there.

use crate::chunk_iter::Source;
use crate::types::{Quad, Size};
use vstd::prelude::*;
use vstd::string::StringExecFns;

verus! {

/// `String::push` of std: it appends the character to the end of the string.
#[verifier::external_body]
pub(crate) fn push_char(s: &mut String, c: char)
    ensures
        final(s)@ == old(s)@.push(c),
{
    s.push(c)
}

/// A screen of `w` by `h` characters inside a border. Each character takes
/// two columns, and the border and the status take three rows.
pub struct TermScreen {
    full_size: Size,
    content_size: Size,
}

/// Where a text is put on the screen: the column and the row it starts at,
/// and how many of its characters are shown.
pub struct Placement {
    pub column: usize,
    pub row: usize,
    pub len: usize,
}

/// The number of columns by which a text of `len` characters is moved to the
/// left.
pub open spec fn anchor_offset(quad: Quad, len: int) -> int {
    match quad {
        Quad::Left => 0,
        Quad::Center => len / 2,
        Quad::Right => len,
    }
}

/// The smaller of two numbers.
pub open spec fn least(a: int, b: int) -> int {
    if a <= b {
        a
    } else {
        b
    }
}

/// The text that draws characters in rows of `w`: before the first character
/// of each row a line break and a step over the border, after each character
/// a space.
pub open spec fn rows_text(items: Seq<char>, w: int) -> Seq<char>
    decreases items.len(),
{
    if items.len() == 0 {
        Seq::empty()
    } else {
        rows_text(items.drop_last(), w) + (if (items.len() - 1) % w == 0 {
            seq!['\n', '\r', '\x1B', '[', '1', 'C']
        } else {
            Seq::empty()
        }) + seq![items.last(), ' ']
    }
}

impl TermScreen {
    /// The size of the screen with its border.
    pub closed spec fn full(&self) -> Size {
        self.full_size
    }

    /// The size of what the border holds.
    pub closed spec fn content(&self) -> Size {
        self.content_size
    }

    /// The invariant of the screen.
    pub open spec fn wf(&self) -> bool {
        &&& self.full().w == (self.content().w + 1) * 2
        &&& self.full().h == self.content().h + 3
    }

    pub fn new(w: usize, h: usize) -> (s: Self)
        requires
            (w + 1) * 2 <= usize::MAX,
            h + 3 <= usize::MAX,
        ensures
            s.wf(),
            s.content().w == w,
            s.content().h == h,
    {
        Self { full_size: Size::new((w + 1) * 2, h + 3), content_size: Size::new(w, h) }
    }

    pub fn from_size(s: Size) -> (r: Self)
        requires
            (s.w + 1) * 2 <= usize::MAX,
            s.h + 3 <= usize::MAX,
        ensures
            r.wf(),
            r.content() == s,
    {
        let mut s = s;
        let cs = s;
        s.w = (s.w + 1) * 2;
        s.h += 3;
        Self { full_size: s, content_size: cs }
    }

    pub fn get_size(&self) -> (s: &Size)
        ensures
            *s == self.content(),
    {
        &self.content_size
    }

    /// Where a text of `len` characters goes that is anchored at character
    /// `x` of row `y`: it starts `anchor_offset` columns to the left of
    /// column `2 * x`, at the left edge at the least and at the right edge at
    /// the most, and is cut at the right edge.
    pub fn place_text(&self, x: usize, y: usize, len: usize, quad: Quad) -> (p: Placement)
        requires
            x * 2 <= usize::MAX,
            y + 1 <= usize::MAX,
        ensures
            p.column == least(
                if x * 2 >= anchor_offset(quad, len as int) {
                    x * 2 - anchor_offset(quad, len as int)
                } else {
                    0
                },
                self.full().w as int,
            ),
            p.row == least(y + 1, self.full().h as int),
            p.len == least(self.full().w - p.column, len as int),
    {
        let offset = match quad {
            Quad::Left => 0,
            Quad::Center => len / 2,
            Quad::Right => len,
        };
        let at = x * 2;
        let moved = if at >= offset {
            at - offset
        } else {
            0
        };
        let r_x = if moved <= self.full_size.w {
            moved
        } else {
            self.full_size.w
        };
        let r_y = if y + 1 <= self.full_size.h {
            y + 1
        } else {
            self.full_size.h
        };
        let room = self.full_size.w - r_x;
        let shown = if room <= len {
            room
        } else {
            len
        };
        Placement { column: r_x, row: r_y, len: shown }
    }

    /// The number of columns between the left and the right border.
    pub fn border_gap(&self) -> (gap: usize)
        requires
            self.wf(),
        ensures
            gap == self.full().w - 2,
    {
        self.full_size.w - 2
    }

    /// The text that draws the characters of `items` inside the border.
    pub fn compose<I: Source<Item = char>>(&self, items: I) -> (text: String)
        requires
            items.wf(),
            self.content().w > 0,
        ensures
            text@ == rows_text(items.remaining(), self.content().w as int),
    {
        let mut items = items;
        let ghost all = items.remaining();
        let ghost mut done: int = 0;
        let mut col: usize = 0;
        let mut text = String::new();
        proof {
            assert(all.take(0) =~= Seq::<char>::empty());
        }
        loop
            invariant
                items.wf(),
                0 < self.content_size.w,
                0 <= done <= all.len(),
                items.remaining() == all.skip(done),
                col < self.content_size.w,
                col == done % (self.content_size.w as int),
                text@ == rows_text(all.take(done), self.content_size.w as int),
            ensures
                done == all.len(),
                text@ == rows_text(all.take(done), self.content_size.w as int),
            decreases all.len() - done,
        {
            match items.next() {
                Some(v) => {
                    if col == 0 {
                        proof {
                            reveal_strlit("\n\r\x1B[1C");
                        }
                        assert("\n\r\x1B[1C"@ =~= seq!['\n', '\r', '\x1B', '[', '1', 'C']);
                        text.append("\n\r\x1B[1C");
                    }
                    push_char(&mut text, v);
                    push_char(&mut text, ' ');
                    col += 1;
                    if col == self.content_size.w {
                        col = 0;
                    }
                    proof {
                        let next = all.take(done + 1);
                        assert(next.drop_last() =~= all.take(done));
                        crate::tiling::lemma_next_column(done, self.content_size.w as int);
                        assert(all.skip(done).drop_first() =~= all.skip(done + 1));
                        done = done + 1;
                        assert(text@ =~= rows_text(next, self.content_size.w as int));
                    }
                },
                None => {
                    break ;
                },
            }
        }
        proof {
            assert(all.take(done) =~= all);
        }
        text
    }
}

/// A line of status text above a screen `w` characters wide.
pub struct TermStatusLine {
    w: usize,
}

impl TermStatusLine {
    /// The number of columns of the line.
    pub closed spec fn width(&self) -> int {
        self.w as int
    }

    pub fn new(w: usize) -> (s: Self)
        requires
            (w + 1) * 2 <= usize::MAX,
        ensures
            s.width() == (w + 1) * 2,
    {
        Self { w: (w + 1) * 2 }
    }

    /// The text of the line: the characters of `items`, as many as the line
    /// has columns at the most.
    pub fn compose<I: Source<Item = char>>(&self, items: I) -> (text: String)
        requires
            items.wf(),
        ensures
            text@ == items.remaining().take(least(self.width(), items.remaining().len() as int)),
    {
        let mut items = items;
        let ghost all = items.remaining();
        let mut text = String::new();
        let mut n: usize = 0;
        proof {
            assert(all.take(0) =~= Seq::<char>::empty());
        }
        while n < self.w
            invariant
                items.wf(),
                n <= self.w,
                n <= all.len(),
                items.remaining() == all.skip(n as int),
                text@ == all.take(n as int),
            ensures
                n == self.w || n == all.len(),
                n <= self.w,
                n <= all.len(),
                text@ == all.take(n as int),
            decreases self.w - n,
        {
            match items.next() {
                Some(v) => {
                    push_char(&mut text, v);
                    proof {
                        assert(all.skip(n as int).drop_first() =~= all.skip(n + 1));
                        assert(all.take(n as int).push(all[n as int]) =~= all.take(n + 1));
                    }
                    n += 1;
                },
                None => {
                    break ;
                },
            }
        }
        text
    }
}

} // verus!
