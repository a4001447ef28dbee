//! Boards as text: nine lines of nine cells to read, and a string of clues
//! to write a board from.

use vstd::prelude::*;
use vstd::std_specs::iter::IteratorSpec;
use vstd::string::StringExecFns;
use crate::board::Board;
use crate::error::SuDoKuError;
use crate::grid::Grid;

verus! {

/// The character that shows a cell: `_` for a blank cell, else its digit.
pub open spec fn glyph(digit: u8) -> char {
    if digit == 0 {
        '_'
    } else {
        (digit + 48) as char
    }
}

/// The clue that a character stands for: its value for `1` to `9`, and zero,
/// a blank cell, for every other character.
pub open spec fn clue(ch: char) -> u8 {
    if '1' <= ch <= '9' {
        (ch as int - 48) as u8
    } else {
        0
    }
}

/// The text of a grid: its rows as nine lines, the cells of a row parted by
/// one space, each line closed by a line feed. So every cell is followed by
/// one character, which is a line feed after the ninth cell of a row.
pub open spec fn render(g: Grid) -> Seq<char> {
    Seq::new(
        162,
        |i: int|
            if i % 2 == 0 {
                glyph(g.cells[i / 2])
            } else if i % 18 == 17 {
                '\n'
            } else {
                ' '
            },
    )
}

/// The characters that show the first `n` cells of a grid.
pub open spec fn glyphs(g: Grid, n: nat) -> Seq<char> {
    Seq::new(n, |i: int| glyph(g.cells[i]))
}

/// The cells that a text of clues fills, row by row: one character for each
/// cell, and blank cells where the text ends before the board does.
pub open spec fn clues(text: Seq<char>) -> Seq<u8> {
    Seq::new(
        81,
        |i: int|
            if i < text.len() {
                clue(text[i])
            } else {
                0u8
            },
    )
}

/// A text without its spaces and line feeds.
pub open spec fn packed(text: Seq<char>) -> Seq<char> {
    text.filter(|ch: char| ch != ' ' && ch != '\n')
}

proof fn lemma_packed_prefix(g: Grid, n: int)
    requires
        g.wf(),
        0 <= n <= 81,
    ensures
        packed(render(g).take(2 * n)) == glyphs(g, n as nat),
    decreases n,
{
    let text = render(g);
    let keep = |ch: char| ch != ' ' && ch != '\n';
    if n == 0 {
        assert(text.take(0) =~= Seq::<char>::empty());
        reveal(Seq::filter);
        assert(packed(text.take(0)) =~= glyphs(g, 0));
    } else {
        let less = n - 1;
        lemma_packed_prefix(g, less);
        let shown = text[2 * less];
        let gap = text[2 * less + 1];
        assert(g.cells[less] <= 9);
        assert(text.take(2 * n) =~= text.take(2 * less).push(shown).push(gap));
        text.take(2 * less).lemma_filter_push(shown, keep);
        text.take(2 * less).push(shown).lemma_filter_push(gap, keep);
        assert(packed(text.take(2 * n)) =~= glyphs(g, n as nat));
    }
}

/// The text of a grid, read as clues once its spaces and line feeds are
/// taken out, gives the cells of the grid.
pub proof fn lemma_text_holds_cells(g: Grid)
    requires
        g.wf(),
    ensures
        packed(render(g)) == glyphs(g, 81),
        clues(packed(render(g))) == g.cells,
{
    lemma_packed_prefix(g, 81);
    assert(render(g).take(162) =~= render(g));
    assert forall|i: int| 0 <= i < 81 implies clues(glyphs(g, 81))[i] == g.cells[i] by {
        assert(g.cells[i] <= 9);
    }
    assert(clues(glyphs(g, 81)) =~= g.cells);
}

/// A board written from the text of another, the spaces and line feeds
/// taken out, is that board again, whether or not it is solved.
pub proof fn lemma_text_round_trip(g: Grid, again: Grid)
    requires
        g.wf(),
        g.in_sync(),
        again.wf(),
        again.in_sync(),
        again.cells == clues(packed(render(g))),
    ensures
        again == g,
{
    lemma_text_holds_cells(g);
    again.lemma_in_sync_unique(g);
}

/// The text of one cell.
fn glyph_text(digit: u8) -> (text: &'static str)
    requires
        digit <= 9,
    ensures
        text@ == seq![glyph(digit)],
{
    let text = match digit {
        0 => "_",
        1 => "1",
        2 => "2",
        3 => "3",
        4 => "4",
        5 => "5",
        6 => "6",
        7 => "7",
        8 => "8",
        _ => "9",
    };
    proof {
        reveal_strlit("_");
        reveal_strlit("1");
        reveal_strlit("2");
        reveal_strlit("3");
        reveal_strlit("4");
        reveal_strlit("5");
        reveal_strlit("6");
        reveal_strlit("7");
        reveal_strlit("8");
        reveal_strlit("9");
        assert(text@ =~= seq![glyph(digit)]);
    }
    text
}

/// The clue that a character stands for.
fn clue_of(ch: char) -> (digit: u8)
    ensures
        digit == clue(ch),
{
    match ch {
        '1' => 1,
        '2' => 2,
        '3' => 3,
        '4' => 4,
        '5' => 5,
        '6' => 6,
        '7' => 7,
        '8' => 8,
        '9' => 9,
        _ => 0,
    }
}

impl Board {
    /// The board as text for a reader: nine lines, the cells of a row
    /// parted by one space, a blank cell shown as `_`.
    pub fn to_string(&self) -> (text: String)
        ensures
            text@ == render(self@),
    {
        proof {
            use_type_invariant(self);
        }
        let mut text = String::new();
        let ghost whole = render(self@);
        let mut x: usize = 0;
        while x < 9
            invariant
                x <= 9,
                self@.wf(),
                whole == render(self@),
                text@ == whole.take(x * 18),
            decreases 9 - x,
        {
            let mut y: usize = 0;
            while y < 9
                invariant
                    x < 9,
                    y <= 9,
                    self@.wf(),
                    whole == render(self@),
                    text@ == whole.take(
                        x * 18 + (if y == 9 {
                            17int
                        } else {
                            y * 2
                        }),
                    ),
                decreases 9 - y,
            {
                let val: u8 = match self.unchecked_get(x, y) {
                    Some(digit) => digit,
                    None => 0,
                };
                proof {
                    assert(self@.cells[x * 9 + y] <= 9);
                }
                let ghost at = x * 18 + y * 2;
                text.append(glyph_text(val));
                proof {
                    assert(text@ =~= whole.take(at + 1));
                }
                if y != 8 {
                    proof {
                        reveal_strlit(" ");
                    }
                    text.append(" ");
                    proof {
                        assert(text@ =~= whole.take(at + 2));
                    }
                }
                y += 1;
            }
            proof {
                reveal_strlit("\n");
            }
            text.append("\n");
            proof {
                assert(text@ =~= whole.take((x + 1) * 18));
            }
            x += 1;
        }
        proof {
            assert(whole.take(162) =~= whole);
        }
        text
    }
}

impl core::str::FromStr for Board {
    type Err = SuDoKuError;

    /// The board that a text of clues describes. The characters are read
    /// row by row, one for each cell: `1` to `9` fill the cell, every other
    /// character leaves it blank. Reading ends after 81 characters, and a
    /// shorter text leaves the rest of the board blank. No text is refused.
    fn from_str(s: &str) -> (res: Result<Board, SuDoKuError>)
        ensures
            res is Ok,
            res->Ok_0@.wf(),
            res->Ok_0@.in_sync(),
            res->Ok_0@.cells == clues(s@),
    {
        broadcast use vstd::string::next_postcondition, vstd::string::axiom_spec_iter;

        let mut board = Board::new();
        let mut chs = s.chars();
        let mut pos: usize = 0;
        while pos < 81
            invariant
                pos <= 81,
                board@.wf(),
                board@.in_sync(),
                chs.obeys_prophetic_iter_laws(),
                chs.remaining() == (if pos <= s@.len() {
                    s@.skip(pos as int)
                } else {
                    Seq::<char>::empty()
                }),
                forall|i: int|
                    0 <= i < 81 ==> #[trigger] board@.cells[i] == (if i < pos {
                        clues(s@)[i]
                    } else {
                        0u8
                    }),
            decreases 81 - pos,
        {
            let ch: char = match chs.next() {
                Some(c) => c,
                None => '.',
            };
            let val: u8 = clue_of(ch);
            proof {
                if pos < s@.len() {
                    assert(s@.skip(pos as int)[0] == s@[pos as int]);
                    assert(s@.skip(pos as int).drop_first() =~= s@.skip(pos + 1));
                }
                assert(val == clues(s@)[pos as int]);
            }
            if val != 0 {
                let x: usize = pos / 9;
                let y: usize = pos % 9;
                proof {
                    assert(board@.cells[pos as int] == 0);
                    board@.lemma_place_in_sync(x as int, y as int, val);
                }
                board.set(x, y, val)?;
            }
            pos += 1;
        }
        proof {
            assert(board@.cells =~= clues(s@));
        }
        Ok(board)
    }
}

} // verus!
