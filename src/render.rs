//! Text for a row of cells: `[a, b, c]`, with one glyph for a live cell and
//! another for a dead one.
use vstd::prelude::*;
use vstd::string::StringExecFns;
use crate::cell::{Cell, CellState};

verus! {

/// The escape sequence that ends a coloured span.
pub open spec fn reset_code() -> Seq<char> {
    seq!['\u{1b}', '[', '0', 'm']
}

/// The escape sequence that starts a span in the foreground colour `code`
/// (`32` for green, `31` for red).
pub open spec fn colour_code(code: Seq<char>) -> Seq<char> {
    seq!['\u{1b}', '['] + code + seq!['m']
}

/// `r` is `text` as printed in colour `code`: plain where colouring is off,
/// wrapped in the colour's escape sequences where it is on.
pub open spec fn is_painted(code: Seq<char>, text: Seq<char>, r: Seq<char>) -> bool {
    r == text || r == colour_code(code) + text + reset_code()
}

pub open spec fn green_code() -> Seq<char> {
    seq!['3', '2']
}

pub open spec fn red_code() -> Seq<char> {
    seq!['3', '1']
}

pub open spec fn has_no_escape(text: Seq<char>) -> bool {
    forall|k: int| 0 <= k < text.len() ==> text[k] != '\u{1b}'
}

/// Relies on `colored::Colorize::green` on a `&str` and on the `Display` of
/// the resulting `ColoredString`: the text unchanged where colouring is off
/// (the environment, the terminal or `colored::control::set_override`
/// decides), else the text between the
/// escape sequences for green and for reset.
#[verifier::external_body]
fn paint_green(text: &str) -> (r: String)
    requires
        has_no_escape(text@),
    ensures
        is_painted(green_code(), text@, r@),
{
    colored::Colorize::green(text).to_string()
}

/// Relies on `colored::Colorize::red` on a `&str` and on the `Display` of
/// the resulting `ColoredString`: the text unchanged where colouring is off
/// (the environment, the terminal or `colored::control::set_override`
/// decides), else the text between the
/// escape sequences for red and for reset.
#[verifier::external_body]
fn paint_red(text: &str) -> (r: String)
    requires
        has_no_escape(text@),
    ensures
        is_painted(red_code(), text@, r@),
{
    colored::Colorize::red(text).to_string()
}

pub open spec fn glyph(c: Cell, alive: Seq<char>, dead: Seq<char>) -> Seq<char> {
    if c.state == CellState::Alive {
        alive
    } else {
        dead
    }
}

/// The glyphs of `cells`, separated by a comma and a space.
pub open spec fn joined(cells: Seq<Cell>, alive: Seq<char>, dead: Seq<char>) -> Seq<char>
    decreases cells.len(),
{
    if cells.len() == 0 {
        Seq::empty()
    } else if cells.len() == 1 {
        glyph(cells[0], alive, dead)
    } else {
        joined(cells.drop_last(), alive, dead) + seq![',', ' '] + glyph(cells.last(), alive, dead)
    }
}

/// The glyphs of `cells` between brackets.
pub open spec fn row_text(cells: Seq<Cell>, alive: Seq<char>, dead: Seq<char>) -> Seq<char> {
    seq!['['] + joined(cells, alive, dead) + seq![']']
}

/// The text of a row: its cells' glyphs, `alive` or `dead`, separated by
/// `", "` and between brackets.
pub fn render_row(row: &[Cell], alive: &str, dead: &str) -> (r: String)
    ensures
        r@ == row_text(row@, alive@, dead@),
{
    proof {
        reveal_strlit("[");
        reveal_strlit("]");
    }
    let mut out = String::from_str("[");
    let mut k: usize = 0;
    while k < row.len()
        invariant
            k <= row@.len(),
            out@ == seq!['['] + joined(row@.subrange(0, k as int), alive@, dead@),
        decreases row@.len() - k,
    {
        let ghost before = out@;
        if k > 0 {
            out.append(", ");
        }
        let ghost sep = out@;
        if row[k].is_alive() {
            out.append(alive);
        } else {
            out.append(dead);
        }
        proof {
            let p = row@.subrange(0, k as int);
            let s = row@.subrange(0, k + 1);
            let g = glyph(row@[k as int], alive@, dead@);
            assert(s.drop_last() =~= p);
            assert(s.last() == row@[k as int]);
            assert(out@ == sep + g);
            if k == 0 {
                assert(joined(s, alive@, dead@) == g);
                assert(out@ =~= seq!['['] + joined(s, alive@, dead@));
            } else {
                reveal_strlit(", ");
                assert(", "@ =~= seq![',', ' ']);
                assert(sep == before + seq![',', ' ']);
                assert(joined(s, alive@, dead@) == joined(p, alive@, dead@) + seq![',', ' '] + g);
                assert(out@ =~= seq!['['] + joined(s, alive@, dead@));
            }
        }
        k = k + 1;
    }
    out.append("]");
    proof {
        assert(row@.subrange(0, k as int) =~= row@);
    }
    out
}

/// A row as a terminal shows it: each cell an `O`, green where alive and red
/// where dead (uncoloured where the terminal or the environment turns
/// colouring off).
pub fn painted_row(row: &[Cell]) -> (r: String)
    ensures
        exists|a: Seq<char>, d: Seq<char>|
            is_painted(green_code(), seq!['O'], a) && is_painted(red_code(), seq!['O'], d) && r@
                == row_text(row@, a, d),
{
    proof {
        reveal_strlit("O");
    }
    let alive = paint_green("O");
    let dead = paint_red("O");
    let r = render_row(row, alive.as_str(), dead.as_str());
    proof {
        assert("O"@ =~= seq!['O']);
        assert(is_painted(green_code(), seq!['O'], alive@));
        assert(is_painted(red_code(), seq!['O'], dead@));
    }
    r
}

} // verus!
