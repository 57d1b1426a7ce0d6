//! Falling glyph rain: a screen of characters that scrolls down one row at a
//! time, fed from the top with randomly lit columns.

use rand::rngs::StdRng;
use vstd::prelude::*;
use crate::random::{draw_below, toss};

verus! {

/// Number of rows of the screen.
pub const GRID_ROWS: usize = 40;

/// Number of columns of the screen.
pub const GRID_COLS: usize = 140;

/// Out of a hundred new rows, how many light an idle column.
pub const START_PERCENT: u32 = 3;

/// Out of a hundred new rows, how many put out a lit column.
pub const STOP_PERCENT: u32 = 6;

/// The glyphs that a lit column shows.
pub const GLYPHS: [char; 46] = [
    'ｱ', 'ｲ', 'ｳ', 'ｴ', 'ｵ', 'ｶ', 'ｷ', 'ｸ', 'ｹ', 'ｺ', 'ｻ', 'ｼ', 'ｽ', 'ｾ', 'ｿ',
    'ﾀ', 'ﾁ', 'ﾂ', 'ﾃ', 'ﾄ', 'ﾅ', 'ﾆ', 'ﾇ', 'ﾈ', 'ﾉ', 'ﾊ', 'ﾋ', 'ﾌ', 'ﾍ', 'ﾎ',
    'ﾏ', 'ﾐ', 'ﾑ', 'ﾒ', 'ﾓ', 'ﾔ', 'ﾕ', 'ﾖ', 'ﾗ', 'ﾘ', 'ﾙ', 'ﾚ', 'ﾛ', 'ﾜ', 'ｦ', 'ﾝ',
];

/// The screen, row by row from the top.
pub type Screen = [[char; GRID_COLS]; GRID_ROWS];

/// Scrolls the screen down by one row and puts `r` on top; the bottom row
/// falls off.
pub fn update_grid(g: &mut Screen, r: &[char; GRID_COLS])
    ensures
        final(g)@[0] == *r,
        forall|i: int| 1 <= i < GRID_ROWS ==> #[trigger] final(g)@[i] == old(g)@[i - 1],
{
    let mut i: usize = GRID_ROWS - 1;
    while i > 0
        invariant
            i < GRID_ROWS,
            forall|j: int| 0 <= j <= i ==> #[trigger] g@[j] == old(g)@[j],
            forall|j: int| i < j < GRID_ROWS ==> #[trigger] g@[j] == old(g)@[j - 1],
        decreases i,
    {
        let above = g[i - 1];
        g[i] = above;
        i -= 1;
    }
    g[0] = *r;
}

/// `c` is one of the glyphs.
pub open spec fn is_glyph(c: char) -> bool {
    exists|k: int| 0 <= k < GLYPHS@.len() && GLYPHS@[k] == c
}

/// What a column shows in the new row, and whether it is lit afterwards. A lit
/// column shows the glyph and goes out when the toss says so; an idle one
/// lights up and shows the glyph when the toss says so, and stays blank
/// otherwise.
pub open spec fn next_column(lit: bool, tossed: bool, glyph: char) -> (char, bool) {
    if lit {
        (glyph, !tossed)
    } else if tossed {
        (glyph, true)
    } else {
        (' ', false)
    }
}

/// Computes `next_column`.
pub fn step_column(lit: bool, tossed: bool, glyph: char) -> (r: (char, bool))
    ensures
        r == next_column(lit, tossed, glyph),
{
    if lit {
        (glyph, !tossed)
    } else if tossed {
        (glyph, true)
    } else {
        (' ', false)
    }
}

/// Draws one of the glyphs.
fn pick_glyph(rng: &mut StdRng) -> (c: char)
    ensures
        is_glyph(c),
{
    let idx = draw_below(rng, GLYPHS.len());
    assert(GLYPHS@[idx as int] == GLYPHS[idx as int]);
    GLYPHS[idx]
}

/// What holds of a column after a new row, whatever was drawn: where it was
/// lit, or is lit now, it shows a glyph; where it was idle and stays idle it
/// is blank.
pub open spec fn column_ok(was_lit: bool, is_lit: bool, shown: char) -> bool {
    &&& was_lit || is_lit ==> is_glyph(shown)
    &&& !was_lit && !is_lit ==> shown == ' '
}

/// Makes the next top row. Each lit column shows a random glyph and goes out
/// with probability `STOP_PERCENT` in a hundred; each idle column lights up
/// with probability `START_PERCENT` in a hundred, and then shows a random
/// glyph too.
///
/// Whatever is drawn: a column that was lit, or is lit afterwards, shows a
/// glyph, and a column that was idle and stays idle is blank.
pub fn generate_line(ac: &mut [bool; GRID_COLS], rng: &mut StdRng) -> (line: [char; GRID_COLS])
    ensures
        forall|i: int|
            0 <= i < GRID_COLS ==> column_ok(old(ac)@[i], final(ac)@[i], #[trigger] line@[i]),
{
    let mut line: [char; GRID_COLS] = [' ';GRID_COLS];
    let mut i: usize = 0;
    while i < GRID_COLS
        invariant
            i <= GRID_COLS,
            forall|j: int| i <= j < GRID_COLS ==> #[trigger] ac@[j] == old(ac)@[j],
            forall|j: int| 0 <= j < i ==> column_ok(old(ac)@[j], ac@[j], #[trigger] line@[j]),
        decreases GRID_COLS - i,
    {
        let lit = ac[i];
        assert(lit == old(ac)@[i as int]);
        let (shown, still) = if lit {
            let glyph = pick_glyph(rng);
            let stop = toss(rng, STOP_PERCENT, 100);
            step_column(true, stop, glyph)
        } else {
            let start = toss(rng, START_PERCENT, 100);
            if start {
                let glyph = pick_glyph(rng);
                step_column(false, true, glyph)
            } else {
                step_column(false, false, ' ')
            }
        };
        assert(column_ok(lit, still, shown));
        let ghost shown_before = line;
        let ghost lit_before = *ac;
        line[i] = shown;
        ac[i] = still;
        proof {
            assert forall|j: int| 0 <= j < i + 1 implies column_ok(
                old(ac)@[j],
                ac@[j],
                #[trigger] line@[j],
            ) by {
                if j < i {
                    assert(line@[j] == shown_before@[j]);
                    assert(ac@[j] == lit_before@[j]);
                    assert(column_ok(old(ac)@[j], lit_before@[j], shown_before@[j]));
                } else {
                    assert(line@[j] == shown);
                    assert(ac@[j] == still);
                }
            }
            assert forall|j: int| i + 1 <= j < GRID_COLS implies #[trigger] ac@[j] == old(ac)@[j] by {
                assert(ac@[j] == lit_before@[j]);
            }
        }
        i += 1;
    }
    line
}

/// The text of the first `k` rows: the rows one after the other, with a line
/// feed between two of them and none at the end.
pub open spec fn text(g: Screen, k: int) -> Seq<char>
    decreases k,
{
    if k <= 0 {
        Seq::empty()
    } else if k == 1 {
        g@[0]@
    } else {
        text(g, k - 1).push('\n') + g@[k - 1]@
    }
}

/// The screen as text, one line per row.
pub fn render(g: &Screen) -> (out: Vec<char>)
    ensures
        out@ == text(*g, GRID_ROWS as int),
{
    let mut out: Vec<char> = Vec::new();
    let mut y: usize = 0;
    while y < GRID_ROWS
        invariant
            y <= GRID_ROWS,
            out@ == text(*g, y as int),
        decreases GRID_ROWS - y,
    {
        if y > 0 {
            out.push('\n');
        }
        let ghost above = out@;
        let mut x: usize = 0;
        while x < GRID_COLS
            invariant
                y < GRID_ROWS,
                x <= GRID_COLS,
                out@ == above + g@[y as int]@.take(x as int),
            decreases GRID_COLS - x,
        {
            out.push(g[y][x]);
            assert(out@ =~= above + g@[y as int]@.take(x + 1));
            x += 1;
        }
        assert(g@[y as int]@.take(GRID_COLS as int) =~= g@[y as int]@);
        assert(out@ =~= above + g@[y as int]@);
        y += 1;
    }
    out
}

} // verus!
