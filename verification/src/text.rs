//! Text helpers: terminal colouring through the `colored` crate, and
//! verified decimal rendering for the human-readable summaries.

use vstd::prelude::*;
use vstd::string::StringExecFns;
use colored::Colorize;

verus! {

/// The decimal digit character for `d` (0 to 9).
pub open spec fn digit_char(d: int) -> char {
    if d == 0 {
        '0'
    } else if d == 1 {
        '1'
    } else if d == 2 {
        '2'
    } else if d == 3 {
        '3'
    } else if d == 4 {
        '4'
    } else if d == 5 {
        '5'
    } else if d == 6 {
        '6'
    } else if d == 7 {
        '7'
    } else if d == 8 {
        '8'
    } else {
        '9'
    }
}

/// The decimal numeral of `n`, most significant digit first.
pub open spec fn decimal(n: int) -> Seq<char>
    decreases n,
{
    if n < 10 {
        seq![digit_char(n)]
    } else {
        decimal(n / 10).push(digit_char(n % 10))
    }
}

/// The last decimal digit of `n` as a one-character string.
fn digit_str(n: usize) -> (r: &'static str)
    ensures
        r@ == seq![digit_char(n as int % 10)],
{
    proof {
        reveal_strlit("0");
        reveal_strlit("1");
        reveal_strlit("2");
        reveal_strlit("3");
        reveal_strlit("4");
        reveal_strlit("5");
        reveal_strlit("6");
        reveal_strlit("7");
        reveal_strlit("8");
        reveal_strlit("9");
    }
    match n % 10 {
        0 => "0",
        1 => "1",
        2 => "2",
        3 => "3",
        4 => "4",
        5 => "5",
        6 => "6",
        7 => "7",
        8 => "8",
        _ => "9",
    }
}

/// The number rendered as a decimal numeral.
pub fn usize_to_string(n: usize) -> (r: String)
    ensures
        r@ == decimal(n as int),
    decreases n,
{
    let digit = digit_str(n);
    if n < 10 {
        digit.to_owned()
    } else {
        let mut out = usize_to_string(n / 10);
        out.append(digit);
        out
    }
}

/// One cell of a rendered row: the tile's number, or `_` for the blank,
/// between padding and the right-hand cell wall.
pub open spec fn cell_text(v: u8) -> Seq<char> {
    if v == 0 {
        " _ │"@
    } else {
        " "@ + decimal(v as int) + " │"@
    }
}

/// The first `k` cells of row `row`, rendered left to right.
pub open spec fn row_cells(tiles: Seq<u8>, size: int, row: int, k: int) -> Seq<char>
    decreases k,
{
    if k <= 0 {
        Seq::empty()
    } else {
        row_cells(tiles, size, row, k - 1) + cell_text(tiles[row * size + (k - 1)])
    }
}

/// The first `k` cell segments of a horizontal border, `mid` between them.
pub open spec fn hborder(size: int, k: int, mid: Seq<char>) -> Seq<char>
    decreases k,
{
    if k <= 0 {
        Seq::empty()
    } else {
        hborder(size, k - 1, mid) + "───"@ + (if k < size {
            mid
        } else {
            Seq::<char>::empty()
        })
    }
}

/// The first `k` rendered rows, a separator line after each but the last.
pub open spec fn rows_text(tiles: Seq<u8>, size: int, k: int) -> Seq<char>
    decreases k,
{
    if k <= 0 {
        Seq::empty()
    } else {
        rows_text(tiles, size, k - 1) + "│"@ + row_cells(tiles, size, k - 1, size) + "\n"@ + (
        if k < size {
            "├"@ + hborder(size, size, "┼"@) + "┤\n"@
        } else {
            Seq::<char>::empty()
        })
    }
}

/// The whole boxed grid, `_` marking the blank.
pub open spec fn board_text(tiles: Seq<u8>, size: int) -> Seq<char> {
    "┌"@ + hborder(size, size, "┬"@) + "┐\n"@ + rows_text(tiles, size, size) + "└"@ + hborder(
        size,
        size,
        "┴"@,
    ) + "┘\n"@
}

/// Appends one horizontal border's cell segments, `mid` between them.
pub(crate) fn push_hborder(out: &mut String, size: usize, mid: &str)
    requires
        size >= 1,
    ensures
        final(out)@ == old(out)@ + hborder(size as int, size as int, mid@),
{
    let mut k: usize = 0;
    while k < size
        invariant
            k <= size,
            size >= 1,
            out@ == old(out)@ + hborder(size as int, k as int, mid@),
        decreases size - k,
    {
        out.append("───");
        if k + 1 < size {
            out.append(mid);
        }
        assert(out@ =~= old(out)@ + hborder(size as int, k as int + 1, mid@));
        k += 1;
    }
}

/// The text occurs in `r` unchanged, between some prefix and suffix.
pub open spec fn embeds(r: Seq<char>, text: Seq<char>) -> bool {
    exists|pre: Seq<char>, post: Seq<char>| r == #[trigger] (pre + text + post)
}

/// Relies on colored's `Colorize::green` for `&str` and `Display` for
/// `ColoredString`: when the input holds no escape character the output
/// is the input unchanged between a (possibly empty) style prefix and
/// reset suffix; whether colour codes appear depends on the environment.
#[verifier::external_body]
pub(crate) fn green_text(text: &str) -> (r: String)
    requires
        !text@.contains('\u{1b}'),
    ensures
        embeds(r@, text@),
{
    text.green().to_string()
}

/// Relies on colored's `Colorize::yellow` for `&str` and `Display` for
/// `ColoredString`: when the input holds no escape character the output
/// is the input unchanged between a (possibly empty) style prefix and
/// reset suffix; whether colour codes appear depends on the environment.
#[verifier::external_body]
pub(crate) fn yellow_text(text: &str) -> (r: String)
    requires
        !text@.contains('\u{1b}'),
    ensures
        embeds(r@, text@),
{
    text.yellow().to_string()
}

/// Relies on colored's `Colorize::red` for `&str` and `Display` for
/// `ColoredString`: when the input holds no escape character the output
/// is the input unchanged between a (possibly empty) style prefix and
/// reset suffix; whether colour codes appear depends on the environment.
#[verifier::external_body]
pub(crate) fn red_text(text: &str) -> (r: String)
    requires
        !text@.contains('\u{1b}'),
    ensures
        embeds(r@, text@),
{
    text.red().to_string()
}

} // verus!
