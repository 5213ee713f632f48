//! Boxes with rounded corners around text for the terminal, optionally
//! colored, and coloring a character wherever it occurs.
use vstd::prelude::*;
use colored::Color;
use crate::session::repeat::{split_all, slices_view, split_on};
use crate::text::{push_char, push_str, has_char, decimal};
use crate::tree::strings_view;

verus! {

/// `colored::Color`, which the library's colors are converted to for painting.
#[verifier::external_type_specification]
#[verifier::external_body]
pub struct ExColor(Color);

/// The columns a text takes on the terminal, escape codes not counted.
pub uninterp spec fn display_width(s: Seq<char>) -> usize;

/// The columns a text takes on the terminal (`console::measure_text_width`).
#[verifier::external_body]
fn measure_width(s: &str) -> (r: usize)
    ensures
        r == display_width(s@),
{
    console::measure_text_width(s)
}

/// A text cut to at most `width` columns, `tail` marking the cut.
pub uninterp spec fn truncated(s: Seq<char>, width: usize, tail: Seq<char>) -> Seq<char>;

/// Cuts a text to at most `width` columns, ending it with `tail` where it
/// was cut (`console::truncate_str`); a text that fits is left as it is.
#[verifier::external_body]
fn truncate(s: &str, width: usize, tail: &str) -> (r: String)
    ensures
        r@ == truncated(s@, width, tail@),
        display_width(s@) <= width ==> r@ == s@,
{
    console::truncate_str(s, width, tail).into_owned()
}

/// A color for the terminal: the sixteen named ones, one of the 256 of the
/// extended palette, or a red, green and blue mix (`colored::Color`).
#[derive(Debug, Clone, Copy, PartialEq, Eq, Structural)]
pub enum TermColor {
    Black,
    Red,
    Green,
    Yellow,
    Blue,
    Magenta,
    Cyan,
    White,
    BrightBlack,
    BrightRed,
    BrightGreen,
    BrightYellow,
    BrightBlue,
    BrightMagenta,
    BrightCyan,
    BrightWhite,
    AnsiColor(u8),
    TrueColor { r: u8, g: u8, b: u8 },
}

/// The code that selects a color for the text, for the colors whose code
/// does not depend on the terminal (all but a red, green and blue mix).
pub open spec fn fg_code(c: TermColor) -> Seq<char> {
    match c {
        TermColor::Black => "30"@,
        TermColor::Red => "31"@,
        TermColor::Green => "32"@,
        TermColor::Yellow => "33"@,
        TermColor::Blue => "34"@,
        TermColor::Magenta => "35"@,
        TermColor::Cyan => "36"@,
        TermColor::White => "37"@,
        TermColor::BrightBlack => "90"@,
        TermColor::BrightRed => "91"@,
        TermColor::BrightGreen => "92"@,
        TermColor::BrightYellow => "93"@,
        TermColor::BrightBlue => "94"@,
        TermColor::BrightMagenta => "95"@,
        TermColor::BrightCyan => "96"@,
        TermColor::BrightWhite => "97"@,
        TermColor::AnsiColor(n) => "38;5;"@ + decimal(n as nat),
        TermColor::TrueColor { .. } => Seq::empty(),
    }
}

/// The escape code that ends a painted text.
pub open spec fn reset_code() -> Seq<char> {
    seq!['\x1b', '[', '0', 'm']
}

/// What painting a text in a color may give: the text itself, when the
/// terminal takes no colors; else the text between the escape code of the
/// color and the reset code. For a red, green and blue mix the escape code
/// depends on the terminal and is left open.
pub open spec fn painted_in(text: Seq<char>, c: TermColor, r: Seq<char>) -> bool {
    ||| r == text
    ||| match c {
        TermColor::TrueColor { .. } => exists|style: Seq<char>| r == style + text + reset_code(),
        _ => r == seq!['\x1b', '['] + fg_code(c) + seq!['m'] + text + reset_code(),
    }
}

/// `colored`'s form of a color, variant for variant.
#[verifier::external_body]
fn color_of(c: TermColor) -> Color {
    match c {
        TermColor::Black => Color::Black, TermColor::Red => Color::Red,
        TermColor::Green => Color::Green, TermColor::Yellow => Color::Yellow,
        TermColor::Blue => Color::Blue, TermColor::Magenta => Color::Magenta,
        TermColor::Cyan => Color::Cyan, TermColor::White => Color::White,
        TermColor::BrightBlack => Color::BrightBlack, TermColor::BrightRed => Color::BrightRed,
        TermColor::BrightGreen => Color::BrightGreen, TermColor::BrightYellow => Color::BrightYellow,
        TermColor::BrightBlue => Color::BrightBlue, TermColor::BrightMagenta => Color::BrightMagenta,
        TermColor::BrightCyan => Color::BrightCyan, TermColor::BrightWhite => Color::BrightWhite,
        TermColor::AnsiColor(n) => Color::AnsiColor(n),
        TermColor::TrueColor { r, g, b } => Color::TrueColor { r, g, b },
    }
}

/// The text painted in the color for the terminal
/// (`colored::Colorize::color`, then `to_string`). Whether escape codes
/// are written depends on the environment; when they are, the code is
/// `ESC[` and the color's code (`Color::to_fg_str`) then `m`, except for a
/// red, green and blue mix, whose code depends on the terminal. That holds
/// of a text without escape codes of its own.
#[verifier::external_body]
fn paint(text: &str, color: TermColor) -> (r: String)
    ensures
        !has_char(text@, '\x1b') ==> painted_in(text@, color, r@),
{
    colored::Colorize::color(text, color_of(color)).to_string()
}

/// The text, painted when a color is given (see [`painted_in`]).
pub fn color(text: &str, c: &Option<TermColor>) -> (r: String)
    ensures
        match *c {
            Some(k) => !has_char(text@, '\x1b') ==> painted_in(text@, k, r@),
            None => r@ == text@,
        },
{
    match c {
        Some(c) => paint(text, *c),
        None => text.to_owned(),
    }
}

// ---------------------------------------------------------------------------
// Lines of a text

/// A line without its carriage return, if it ends in one.
pub open spec fn strip_cr(l: Seq<char>) -> Seq<char> {
    if l.len() > 0 && l.last() == '\r' {
        l.drop_last()
    } else {
        l
    }
}

/// The lines of a text, as `str::lines` gives them: split at each `\n`, a
/// final `\n` ending the last line rather than starting an empty one, and
/// a `\r` before a `\n` dropped; a `\r` that ends the text stays.
pub open spec fn text_lines(s: Seq<char>) -> Seq<Seq<char>> {
    let parts = split_all(s, '\n');
    let n = if parts.len() > 0 && parts.last().len() == 0 {
        parts.len() - 1
    } else {
        parts.len() as int
    };
    Seq::new(
        n as nat,
        |i: int|
            if i + 1 < parts.len() {
                strip_cr(parts[i])
            } else {
                parts[i]
            },
    )
}

/// The lines of a text (see [`text_lines`]).
pub fn lines(s: &str) -> (r: Vec<String>)
    ensures
        strings_view(r@) == text_lines(s@),
{
    let parts = split_on(s, '\n');
    let ghost pv = slices_view(parts@);
    let total = parts.len();
    let mut n = total;
    if n > 0 && parts[n - 1].unicode_len() == 0 {
        n = n - 1;
    }
    let ghost want = text_lines(s@);
    let mut out: Vec<String> = Vec::new();
    let mut i: usize = 0;
    while i < n
        invariant
            n <= total,
            total == parts@.len(),
            pv == slices_view(parts@),
            pv == split_all(s@, '\n'),
            want == text_lines(s@),
            want.len() == n,
            forall|j: int| 0 <= j < total ==> #[trigger] pv[j] == parts@[j]@,
            i <= n,
            out@.len() == i,
            forall|j: int| 0 <= j < i ==> #[trigger] out@[j]@ == want[j],
        decreases n - i,
    {
        let p = parts[i];
        let m = p.unicode_len();
        let line = if i + 1 < total && m > 0 && p.get_char(m - 1) == '\r' {
            p.substring_char(0, m - 1).to_owned()
        } else {
            p.to_owned()
        };
        proof {
            assert(pv[i as int] == p@);
            assert(line@ == want[i as int]);
        }
        out.push(line);
        i = i + 1;
    }
    proof {
        assert(strings_view(out@) =~= want);
    }
    out
}

// ---------------------------------------------------------------------------
// The box

/// `n` copies of a character.
pub open spec fn repeat_char(c: char, n: nat) -> Seq<char> {
    Seq::new(n, |i: int| c)
}

/// `a - b`, or 0 when `b` is larger.
pub open spec fn sat_sub(a: int, b: int) -> nat {
    if a >= b {
        (a - b) as nat
    } else {
        0
    }
}

/// The widest of the lines, 0 when there is none.
pub open spec fn widest(ls: Seq<Seq<char>>) -> nat
    decreases ls.len(),
{
    if ls.len() == 0 {
        0
    } else {
        let w = widest(ls.drop_last());
        let x = display_width(ls.last()) as nat;
        if x > w {
            x
        } else {
            w
        }
    }
}

/// The inner width of the box: the widest line, or the title with a
/// space on each side if wider, but no more than the terminal leaves
/// inside the borders.
pub open spec fn box_width(title_len: nat, ls: Seq<Seq<char>>, term_width: u16) -> nat {
    let t: nat = if title_len > 0 {
        title_len + 2
    } else {
        0
    };
    let w = if widest(ls) > t {
        widest(ls)
    } else {
        t
    };
    let most = sat_sub(term_width as int, 4);
    if w < most {
        w
    } else {
        most
    }
}

/// The parts of a box that can be painted: the top left corner with the
/// start of the title bar, the title, the rest of the title bar, the top
/// bar when there is no title, the side, and the bottom bar.
pub struct BoxPieces {
    pub top_left: Seq<char>,
    pub title: Seq<char>,
    pub top_right: Seq<char>,
    pub top: Seq<char>,
    pub side: Seq<char>,
    pub bottom: Seq<char>,
}

/// The unpainted parts of a box of inner width `w`.
pub open spec fn plain_pieces(title: Seq<char>, w: nat) -> BoxPieces {
    BoxPieces {
        top_left: seq!['╭', '─', ' '],
        title,
        top_right: seq![' '] + repeat_char('─', sat_sub(w as int, (title.len() + 1) as int)) + seq!['╮'],
        top: seq!['╭'] + repeat_char('─', w + 2) + seq!['╮'],
        side: seq!['│'],
        bottom: seq!['╰'] + repeat_char('─', w + 2) + seq!['╯'],
    }
}

/// Whether the parts are the plain ones wherever no color was asked for,
/// and painted in the color asked for where one was: the border in the
/// border's color, the title, when it holds no escape code, in the title's.
pub open spec fn pieces_fit(
    p: BoxPieces,
    plain: BoxPieces,
    border: Option<TermColor>,
    title: Option<TermColor>,
) -> bool {
    &&& match border {
        None => p.top_left == plain.top_left && p.top_right == plain.top_right && p.top
            == plain.top && p.side == plain.side && p.bottom == plain.bottom,
        Some(c) => painted_in(plain.top_left, c, p.top_left) && painted_in(
            plain.top_right,
            c,
            p.top_right,
        ) && painted_in(plain.top, c, p.top) && painted_in(plain.side, c, p.side) && painted_in(
            plain.bottom,
            c,
            p.bottom,
        ),
    }
    &&& match title {
        None => p.title == plain.title,
        Some(c) => !has_char(plain.title, '\x1b') ==> painted_in(plain.title, c, p.title),
    }
}

/// A line of the box: the line cut to the width and padded with spaces,
/// between two sides.
pub open spec fn box_row(p: BoxPieces, line: Seq<char>, w: nat) -> Seq<char> {
    let t = truncated(line, w as usize, seq!['…']);
    p.side + seq![' '] + t + repeat_char(' ', sat_sub(w as int, display_width(t) as int)) + seq![
        ' ',
    ] + p.side
}

/// The rows of the box: the top bar, with the title if there is one, a
/// row for each line, and the bottom bar.
pub open spec fn box_rows(p: BoxPieces, has_title: bool, ls: Seq<Seq<char>>, w: nat) -> Seq<
    Seq<char>,
> {
    let top = if has_title {
        p.top_left + p.title + p.top_right
    } else {
        p.top
    };
    seq![top] + ls.map_values(|l: Seq<char>| box_row(p, l, w)) + seq![p.bottom]
}

/// Rows joined by newlines.
pub open spec fn join_rows(rows: Seq<Seq<char>>) -> Seq<char>
    decreases rows.len(),
{
    if rows.len() == 0 {
        Seq::empty()
    } else if rows.len() == 1 {
        rows[0]
    } else {
        join_rows(rows.drop_last()) + seq!['\n'] + rows.last()
    }
}

/// Appends `n` copies of a character.
fn push_repeat(out: &mut String, c: char, n: usize)
    ensures
        final(out)@ == old(out)@ + repeat_char(c, n as nat),
{
    let ghost start = out@;
    let mut i: usize = 0;
    while i < n
        invariant
            i <= n,
            out@ == start + repeat_char(c, i as nat),
        decreases n - i,
    {
        push_char(out, c);
        proof {
            assert(out@ =~= start + repeat_char(c, (i + 1) as nat));
        }
        i = i + 1;
    }
}

/// `a - b`, or 0 when `b` is larger.
fn saturating_sub(a: usize, b: usize) -> (r: usize)
    ensures
        r == sat_sub(a as int, b as int),
{
    if a >= b {
        a - b
    } else {
        0
    }
}

/// The widest of the lines (see [`widest`]).
fn widest_line(ls: &Vec<String>) -> (r: usize)
    ensures
        r == widest(strings_view(ls@)),
{
    let ghost lv = strings_view(ls@);
    let mut w: usize = 0;
    let mut i: usize = 0;
    proof {
        assert(lv.take(0) =~= Seq::<Seq<char>>::empty());
    }
    while i < ls.len()
        invariant
            i <= ls@.len(),
            lv == strings_view(ls@),
            w == widest(lv.take(i as int)),
        decreases ls.len() - i,
    {
        let x = measure_width(ls[i].as_str());
        proof {
            assert(lv.take(i + 1).drop_last() =~= lv.take(i as int));
            assert(lv.take(i + 1).last() == ls@[i as int]@);
        }
        if x > w {
            w = x;
        }
        i = i + 1;
    }
    proof {
        assert(lv.take(ls@.len() as int) =~= lv);
    }
    w
}

/// Draws a box with rounded corners around the text's lines, its title,
/// if not empty, in the top bar; the box is no wider than `term_width`
/// columns, lines too long being cut with `…`, and lines that fit kept as
/// they are. When a color is given, the border or the title is painted
/// with it.
pub fn rounded_box(
    title: &str,
    text: &str,
    border_color: Option<TermColor>,
    title_color: Option<TermColor>,
    term_width: u16,
) -> (r: String)
    requires
        title@.len() + 2 <= usize::MAX,
    ensures
        exists|p: BoxPieces|
            #[trigger] pieces_fit(
                p,
                plain_pieces(title@, box_width(title@.len(), text_lines(text@), term_width)),
                border_color,
                title_color,
            ) && r@ == join_rows(
                box_rows(
                    p,
                    title@.len() > 0,
                    text_lines(text@),
                    box_width(title@.len(), text_lines(text@), term_width),
                ),
            ),
        forall|j: int|
            0 <= j < text_lines(text@).len() && display_width(#[trigger] text_lines(text@)[j])
                <= box_width(title@.len(), text_lines(text@), term_width) ==> truncated(
                text_lines(text@)[j],
                box_width(title@.len(), text_lines(text@), term_width) as usize,
                seq!['…'],
            ) == text_lines(text@)[j],
{
    let ls = lines(text);
    let ghost lv = strings_view(ls@);
    let title_len = title.unicode_len();
    let t: usize = if title_len > 0 {
        title_len + 2
    } else {
        0
    };
    let widest_w = widest_line(&ls);
    let w0 = if widest_w > t {
        widest_w
    } else {
        t
    };
    let most = saturating_sub(term_width as usize, 4);
    let w = if w0 < most {
        w0
    } else {
        most
    };
    let ghost plain = plain_pieces(title@, w as nat);
    // The pieces of the border, each painted once.
    let mut bar = String::new();
    push_char(&mut bar, ' ');
    push_repeat(&mut bar, '─', saturating_sub(w, title_len + 1));
    push_char(&mut bar, '╮');
    let mut top_bar = String::new();
    push_char(&mut top_bar, '╭');
    push_repeat(&mut top_bar, '─', w + 2);
    push_char(&mut top_bar, '╮');
    let mut bottom_bar = String::new();
    push_char(&mut bottom_bar, '╰');
    push_repeat(&mut bottom_bar, '─', w + 2);
    push_char(&mut bottom_bar, '╯');
    let top_left = color("╭─ ", &border_color);
    let painted_title = color(title, &title_color);
    let top_right = color(bar.as_str(), &border_color);
    let top = color(top_bar.as_str(), &border_color);
    let side = color("│", &border_color);
    let bottom = color(bottom_bar.as_str(), &border_color);
    let ghost p = BoxPieces {
        top_left: top_left@,
        title: painted_title@,
        top_right: top_right@,
        top: top@,
        side: side@,
        bottom: bottom@,
    };
    proof {
        reveal_strlit("╭─ ");
        reveal_strlit("│");
        assert(bar@ =~= plain.top_right);
        assert(top_bar@ =~= plain.top);
        assert(bottom_bar@ =~= plain.bottom);
        assert("╭─ "@ =~= plain.top_left);
        assert("│"@ =~= plain.side);
    }
    let ghost rows = box_rows(p, title_len > 0, lv, w as nat);
    let mut out = String::new();
    if title_len > 0 {
        push_str(&mut out, top_left.as_str());
        push_str(&mut out, painted_title.as_str());
        push_str(&mut out, top_right.as_str());
    } else {
        push_str(&mut out, top.as_str());
    }
    proof {
        assert(out@ =~= join_rows(rows.take(1)));
    }
    let mut i: usize = 0;
    while i < ls.len()
        invariant
            i <= ls@.len(),
            lv == strings_view(ls@),
            rows == box_rows(p, title_len > 0, lv, w as nat),
            rows.len() == lv.len() + 2,
            side@ == p.side,
            out@ == join_rows(rows.take(i + 1)),
            forall|j: int|
                0 <= j < i && display_width(#[trigger] lv[j]) <= w ==> truncated(
                    lv[j],
                    w,
                    seq!['…'],
                ) == lv[j],
        decreases ls.len() - i,
    {
        let cut = truncate(ls[i].as_str(), w, "…");
        let cw = measure_width(cut.as_str());
        let ghost before = out@;
        push_char(&mut out, '\n');
        push_str(&mut out, side.as_str());
        push_char(&mut out, ' ');
        push_str(&mut out, cut.as_str());
        push_repeat(&mut out, ' ', saturating_sub(w, cw));
        push_char(&mut out, ' ');
        push_str(&mut out, side.as_str());
        proof {
            reveal_strlit("…");
            assert("…"@ =~= seq!['…']);
            assert(rows[i + 1] == box_row(p, lv[i as int], w as nat));
            assert(lv[i as int] == ls@[i as int]@);
            assert(rows.take(i + 2).drop_last() =~= rows.take(i + 1));
            assert(out@ =~= before + seq!['\n'] + rows[i + 1]);
        }
        i = i + 1;
    }
    push_char(&mut out, '\n');
    push_str(&mut out, bottom.as_str());
    proof {
        assert(rows.take(lv.len() + 2 as int) =~= rows);
        assert(rows.take(lv.len() + 2 as int).drop_last() =~= rows.take(lv.len() + 1 as int));
        assert(lv == text_lines(text@));
        assert(w as nat == box_width(title@.len(), lv, term_width));
        assert(out@ == join_rows(rows));
        assert(pieces_fit(p, plain, border_color, title_color));
    }
    out
}

// ---------------------------------------------------------------------------
// Coloring a character

/// `s` with every `target` replaced by `with`.
pub open spec fn replace_char(s: Seq<char>, target: char, with: Seq<char>) -> Seq<char>
    decreases s.len(),
{
    if s.len() == 0 {
        Seq::empty()
    } else {
        replace_char(s.drop_last(), target, with) + if s.last() == target {
            with
        } else {
            seq![s.last()]
        }
    }
}

/// `s` with every `target` replaced by `with` (see [`replace_char`]).
pub fn replace_all(s: &str, target: char, with: &str) -> (r: String)
    ensures
        r@ == replace_char(s@, target, with@),
{
    let n = s.unicode_len();
    let mut out = String::new();
    let mut i: usize = 0;
    proof {
        assert(s@.take(0) =~= Seq::<char>::empty());
    }
    while i < n
        invariant
            n == s@.len(),
            i <= n,
            out@ == replace_char(s@.take(i as int), target, with@),
        decreases n - i,
    {
        let c = s.get_char(i);
        proof {
            assert(s@.take(i + 1).drop_last() =~= s@.take(i as int));
            assert(s@.take(i + 1).last() == c);
        }
        if c == target {
            push_str(&mut out, with);
        } else {
            push_char(&mut out, c);
        }
        proof {
            assert(out@ =~= replace_char(s@.take(i + 1), target, with@));
        }
        i = i + 1;
    }
    proof {
        assert(s@.take(n as int) =~= s@);
    }
    out
}

/// `s` with every `target` painted in the color: each occurrence is
/// replaced by the same painted text.
pub fn color_char(s: &str, target: char, c: TermColor) -> (r: String)
    ensures
        exists|with: Seq<char>| r@ == replace_char(s@, target, with) && (target != '\x1b'
            ==> painted_in(seq![target], c, with)),
{
    let mut one = String::new();
    push_char(&mut one, target);
    proof {
        assert(one@ =~= seq![target]);
    }
    let painted = paint(one.as_str(), c);
    let r = replace_all(s, target, painted.as_str());
    proof {
        assert(r@ == replace_char(s@, target, painted@));
    }
    r
}

/// `a / b` rounded toward zero, as Rust's integer division.
pub open spec fn div_toward_zero(a: int, b: int) -> int {
    if a >= 0 {
        a / b
    } else {
        -((-a) / b)
    }
}

/// Whole hours, and the whole minutes left over, in a number of seconds,
/// each rounded toward zero (as the session summary shows them).
pub fn hours_and_minutes(secs: i64) -> (r: (i64, i64))
    ensures
        r.0 == div_toward_zero(div_toward_zero(secs as int, 60), 60),
        r.1 == div_toward_zero(secs as int, 60) - 60 * r.0,
{
    let total: i64 = if secs >= 0 {
        secs / 60
    } else {
        -((-(secs as i128) / 60) as i64)
    };
    let hours: i64 = if total >= 0 {
        total / 60
    } else {
        -((-total) / 60)
    };
    (hours, total - 60 * hours)
}

} // verus!
