//! The styles a report is written in.
//!
//! Colour is reserved for a Host's *outcome*; the name is bold instead, and
//! everything else is dimmed. Every styled token is also plain text.

use anstyle::{AnsiColor, Effects};
use vstd::prelude::*;

use crate::run::outcome::Status;

verus! {

/// The colours a report uses.
#[derive(Debug, Clone, Copy, PartialEq, Eq, Structural)]
pub enum Color {
    Red,
    Green,
    Yellow,
    Blue,
    Magenta,
    Cyan,
    BrightBlack,
}

/// How a token is shown on a terminal.
#[derive(Debug, Clone, Copy, PartialEq, Eq, Structural)]
pub struct Style {
    pub color: Option<Color>,
    pub bold: bool,
    pub dimmed: bool,
}

/// The terminal code that a colour is.
pub open spec fn color_code(color: Color) -> Seq<char> {
    match color {
        Color::Red => "\x1b[31m"@,
        Color::Green => "\x1b[32m"@,
        Color::Yellow => "\x1b[33m"@,
        Color::Blue => "\x1b[34m"@,
        Color::Magenta => "\x1b[35m"@,
        Color::Cyan => "\x1b[36m"@,
        Color::BrightBlack => "\x1b[90m"@,
    }
}

/// The terminal codes that begin a style: weight first, then colour.
pub open spec fn style_codes(style: Style) -> Seq<char> {
    (if style.bold {
        "\x1b[1m"@
    } else {
        ""@
    }) + (if style.dimmed {
        "\x1b[2m"@
    } else {
        ""@
    }) + (match style.color {
        Some(color) => color_code(color),
        None => ""@,
    })
}

/// The terminal code that ends a style. A style that shows nothing needs none.
pub open spec fn reset_code(style: Style) -> Seq<char> {
    if style.color is None && !style.bold && !style.dimmed {
        ""@
    } else {
        "\x1b[0m"@
    }
}

/// A token in a style.
pub open spec fn styled(style: Style, token: Seq<char>) -> Seq<char> {
    style_codes(style) + token + reset_code(style)
}

/// `anstyle::Style::render`, of a style with this foreground colour and these
/// effects: the codes of the effects in their order, then the colour's.
#[verifier::external_body]
pub(crate) fn render(style: Style) -> (r: String)
    ensures
        r@ == style_codes(style),
{
    let weight = Effects::new().set(Effects::BOLD, style.bold).set(Effects::DIMMED, style.dimmed);
    let color = match style.color {
        None => None,
        Some(Color::Red) => Some(AnsiColor::Red),
        Some(Color::Green) => Some(AnsiColor::Green),
        Some(Color::Yellow) => Some(AnsiColor::Yellow),
        Some(Color::Blue) => Some(AnsiColor::Blue),
        Some(Color::Magenta) => Some(AnsiColor::Magenta),
        Some(Color::Cyan) => Some(AnsiColor::Cyan),
        Some(Color::BrightBlack) => Some(AnsiColor::BrightBlack),
    };
    let style = anstyle::Style::new().fg_color(color.map(anstyle::Color::Ansi)).effects(weight);
    style.render().to_string()
}

/// `anstyle::Style::render_reset`, of a style with this foreground colour and
/// these effects: the reset code, and nothing for a style that shows nothing.
#[verifier::external_body]
pub(crate) fn render_reset(style: Style) -> (r: String)
    ensures
        r@ == reset_code(style),
{
    let weight = Effects::new().set(Effects::BOLD, style.bold).set(Effects::DIMMED, style.dimmed);
    let color = match style.color {
        None => None,
        Some(Color::Red) => Some(AnsiColor::Red),
        Some(Color::Green) => Some(AnsiColor::Green),
        Some(Color::Yellow) => Some(AnsiColor::Yellow),
        Some(Color::Blue) => Some(AnsiColor::Blue),
        Some(Color::Magenta) => Some(AnsiColor::Magenta),
        Some(Color::Cyan) => Some(AnsiColor::Cyan),
        Some(Color::BrightBlack) => Some(AnsiColor::BrightBlack),
    };
    let style = anstyle::Style::new().fg_color(color.map(anstyle::Color::Ansi)).effects(weight);
    style.render_reset().to_string()
}

/// Writes a token in a style.
pub fn paint(style: Style, token: &str) -> (r: String)
    ensures
        r@ == styled(style, token@),
{
    let mut s = render(style);
    s.append(token);
    let reset = render_reset(style);
    s.append(reset.as_str());
    s
}

/// A Host's name: what it is called, as opposed to how it ended. The name is
/// bold rather than coloured: colour is reserved for a Host's outcome, and
/// weight survives where a colour may not. The command in a heading is bold
/// too.
pub open spec fn bold_style() -> Style {
    Style { color: None, bold: true, dimmed: false }
}

/// A duration, a cause, the run's elapsed time: looked at only when needed.
pub open spec fn dim_style() -> Style {
    Style { color: None, bold: false, dimmed: true }
}

/// A colour, in bold.
pub open spec fn loud(color: Color) -> Style {
    Style { color: Some(color), bold: true, dimmed: false }
}

/// How a status is shown. A command still going is neither good nor bad news:
/// it is the answer rshx was asked for, and the one a reader looks for first.
pub open spec fn status_style(status: Status) -> Style {
    match status {
        Status::Okay => loud(Color::Green),
        Status::Failed => loud(Color::Red),
        Status::Running => loud(Color::Cyan),
        Status::Unreachable => loud(Color::Yellow),
        Status::Timeout => loud(Color::Magenta),
        Status::Cancelled => Style { color: Some(Color::BrightBlack), bold: false, dimmed: false },
    }
}

pub fn bold() -> (r: Style)
    ensures
        r == bold_style(),
{
    Style { color: None, bold: true, dimmed: false }
}

pub fn dim() -> (r: Style)
    ensures
        r == dim_style(),
{
    Style { color: None, bold: false, dimmed: true }
}

pub fn bold_color(color: Color) -> (r: Style)
    ensures
        r == loud(color),
{
    Style { color: Some(color), bold: true, dimmed: false }
}

/// The style of a status.
pub fn of_status(status: Status) -> (r: Style)
    ensures
        r == status_style(status),
{
    match status {
        Status::Okay => bold_color(Color::Green),
        Status::Failed => bold_color(Color::Red),
        Status::Running => bold_color(Color::Cyan),
        Status::Unreachable => bold_color(Color::Yellow),
        Status::Timeout => bold_color(Color::Magenta),
        Status::Cancelled => Style { color: Some(Color::BrightBlack), bold: false, dimmed: false },
    }
}

/// No two statuses look the same.
pub proof fn law_statuses_look_different(a: Status, b: Status)
    requires
        a != b,
    ensures
        status_style(a) != status_style(b),
{
}

// ---------------------------------------------------------------------------
// What a styled text reads as
// ---------------------------------------------------------------------------

/// What a terminal shows of a text: everything but the escape codes, each from
/// its escape character to the `m` that ends it. `inside` says whether the text
/// begins within a code.
pub open spec fn visible(s: Seq<char>, inside: bool) -> Seq<char>
    decreases s.len(),
{
    if s.len() == 0 {
        Seq::empty()
    } else if inside {
        visible(s.drop_first(), s[0] != 'm')
    } else if s[0] == '\x1b' {
        visible(s.drop_first(), true)
    } else {
        seq![s[0]] + visible(s.drop_first(), false)
    }
}

/// Whether a text ends within an escape code.
pub open spec fn left_inside(s: Seq<char>, inside: bool) -> bool
    decreases s.len(),
{
    if s.len() == 0 {
        inside
    } else if inside {
        left_inside(s.drop_first(), s[0] != 'm')
    } else {
        left_inside(s.drop_first(), s[0] == '\x1b')
    }
}

/// What two texts show one after the other is what each shows.
pub proof fn lemma_visible_in_turn(a: Seq<char>, b: Seq<char>, inside: bool)
    ensures
        visible(a + b, inside) == visible(a, inside) + visible(b, left_inside(a, inside)),
        left_inside(a + b, inside) == left_inside(b, left_inside(a, inside)),
    decreases a.len(),
{
    if a.len() == 0 {
        assert(a + b =~= b);
        assert(visible(a, inside) + visible(b, inside) =~= visible(b, inside));
    } else {
        let s = a + b;
        assert(s.drop_first() =~= a.drop_first() + b);
        assert(s[0] == a[0]);
        let next = if inside {
            a[0] != 'm'
        } else {
            a[0] == '\x1b'
        };
        lemma_visible_in_turn(a.drop_first(), b, next);
        assert(visible(s, inside) =~= visible(a, inside) + visible(b, left_inside(a, inside)));
    }
}

/// A text without escape characters shows as it is.
pub proof fn lemma_plain_is_visible(s: Seq<char>)
    requires
        !s.contains('\x1b'),
    ensures
        visible(s, false) == s,
        !left_inside(s, false),
    decreases s.len(),
{
    if s.len() > 0 {
        let t = s.drop_first();
        assert(s.contains(s[0]));
        assert(!t.contains('\x1b')) by {
            if t.contains('\x1b') {
                let i = choose|i: int| 0 <= i < t.len() && t[i] == '\x1b';
                assert(s[i + 1] == '\x1b');
            }
        }
        lemma_plain_is_visible(t);
        assert(seq![s[0]] + t =~= s);
    } else {
        assert(visible(s, false) =~= s);
    }
}

proof fn lemma_code_is_hidden(code: Seq<char>, upto: int)
    requires
        1 <= upto <= code.len(),
        code.len() >= 2,
        code[0] == '\x1b',
        code.last() == 'm',
        forall|i: int| 1 <= i < code.len() - 1 ==> #[trigger] code[i] != 'm',
    ensures
        visible(code.skip(upto), upto < code.len()) == Seq::<char>::empty(),
        !left_inside(code.skip(upto), upto < code.len()),
        upto == 1 ==> visible(code, false) == Seq::<char>::empty() && !left_inside(code, false),
    decreases code.len() - upto,
{
    let rest = code.skip(upto);
    if upto < code.len() {
        assert(rest.drop_first() =~= code.skip(upto + 1));
        assert(rest[0] == code[upto]);
        lemma_code_is_hidden(code, upto + 1);
        if upto < code.len() - 1 {
            assert(code[upto] != 'm');
        } else {
            assert(code[upto] == code.last());
        }
    } else {
        assert(rest =~= Seq::<char>::empty());
    }
    if upto == 1 {
        assert(code.drop_first() =~= code.skip(1));
        assert(visible(code, false) == visible(code.drop_first(), true));
        assert(left_inside(code, false) == left_inside(code.drop_first(), true));
    }
}

proof fn lemma_codes_are_hidden(style: Style)
    ensures
        visible(style_codes(style), false) == Seq::<char>::empty(),
        !left_inside(style_codes(style), false),
        visible(reset_code(style), false) == Seq::<char>::empty(),
        !left_inside(reset_code(style), false),
{
    reveal_strlit("");
    reveal_strlit("\x1b[0m");
    reveal_strlit("\x1b[1m");
    reveal_strlit("\x1b[2m");
    reveal_strlit("\x1b[31m");
    reveal_strlit("\x1b[32m");
    reveal_strlit("\x1b[33m");
    reveal_strlit("\x1b[34m");
    reveal_strlit("\x1b[35m");
    reveal_strlit("\x1b[36m");
    reveal_strlit("\x1b[90m");
    lemma_plain_is_visible(""@);
    lemma_code_is_hidden("\x1b[0m"@, 1);
    lemma_code_is_hidden("\x1b[1m"@, 1);
    lemma_code_is_hidden("\x1b[2m"@, 1);
    if let Some(color) = style.color {
        lemma_code_is_hidden(color_code(color), 1);
    }
    let bold = if style.bold {
        "\x1b[1m"@
    } else {
        ""@
    };
    let dim = if style.dimmed {
        "\x1b[2m"@
    } else {
        ""@
    };
    let color = match style.color {
        Some(color) => color_code(color),
        None => ""@,
    };
    lemma_visible_in_turn(bold, dim, false);
    lemma_visible_in_turn(bold + dim, color, false);
    assert(visible(style_codes(style), false) =~= Seq::<char>::empty());
}

/// A style shows in no character: a styled text reads as the text, whatever
/// the style.
pub proof fn law_a_style_adds_nothing_to_read(style: Style, token: Seq<char>)
    requires
        !token.contains('\x1b'),
    ensures
        visible(styled(style, token), false) == token,
        !left_inside(styled(style, token), false),
{
    lemma_codes_are_hidden(style);
    lemma_plain_is_visible(token);
    lemma_visible_in_turn(style_codes(style), token, false);
    lemma_visible_in_turn(style_codes(style) + token, reset_code(style), false);
    assert(visible(styled(style, token), false) =~= token);
}

/// A status has its own colour: green for `ok`, red for `failed`, cyan for
/// `running`, yellow for `unreachable`, magenta for `timeout`, and grey for
/// `cancelled`, and all but the last are bold.
pub proof fn law_statuses_have_their_own_colours(status: Status)
    ensures
        status_style(status).color == Some(
            match status {
                Status::Okay => Color::Green,
                Status::Failed => Color::Red,
                Status::Running => Color::Cyan,
                Status::Unreachable => Color::Yellow,
                Status::Timeout => Color::Magenta,
                Status::Cancelled => Color::BrightBlack,
            },
        ),
        status_style(status).bold == (status != Status::Cancelled),
        !status_style(status).dimmed,
{
}

} // verus!
