//! The kind of a single cell, and its textual rendering.
use vstd::prelude::*;

verus! {

/// What a cell of the mine field holds.
#[derive(Debug, Clone, Copy, PartialEq, Eq, Structural, Hash)]
pub enum Tile {
    /// No mine here and none around.
    Empty,
    /// A mine.
    Mine,
    /// No mine here, and this many mines around.
    Neighbor(u8),
}

/// Foreground colours of the console rendering.
#[derive(Debug, Clone, Copy, PartialEq, Eq, Structural)]
pub enum Shade {
    Red,
    Green,
    Yellow,
    Cyan,
    BrightRed,
}

/// The ANSI code that selects a foreground colour.
pub open spec fn shade_code(s: Shade) -> Seq<char> {
    match s {
        Shade::Red => seq!['3', '1'],
        Shade::Green => seq!['3', '2'],
        Shade::Yellow => seq!['3', '3'],
        Shade::Cyan => seq!['3', '6'],
        Shade::BrightRed => seq!['9', '1'],
    }
}

/// `text` wrapped in the escape sequence that selects colour `code`, followed
/// by the sequence that resets all attributes.
pub open spec fn ansi_painted(code: Seq<char>, text: Seq<char>) -> Seq<char> {
    seq!['\x1b', '['] + code + seq!['m'] + text + seq!['\x1b', '[', '0', 'm']
}

/// Text that holds no escape character.
pub open spec fn escape_free(text: Seq<char>) -> bool {
    forall|i: int| 0 <= i < text.len() ==> text[i] != '\x1b'
}

/// What rendering `text` in colour `shade` may produce: colouring can be
/// switched off by the environment, and then the text comes back as it is.
pub open spec fn painted_as(r: Seq<char>, text: Seq<char>, shade: Shade) -> bool {
    r == text || r == ansi_painted(shade_code(shade), text)
}

/// Relies on colored's `Colorize::color` and on the `Display` impl of the
/// `ColoredString` it returns: for a text without escape characters the
/// output is the text itself when colouring is off, and otherwise the text
/// between the colour's escape sequence and the reset sequence.
#[verifier::external_body]
fn paint(text: &str, shade: Shade) -> (r: String)
    requires
        escape_free(text@),
    ensures
        painted_as(r@, text@, shade),
{
    let color = match shade {
        Shade::Red => colored::Color::Red,
        Shade::Green => colored::Color::Green,
        Shade::Yellow => colored::Color::Yellow,
        Shade::Cyan => colored::Color::Cyan,
        Shade::BrightRed => colored::Color::BrightRed,
    };
    format!("{}", colored::Colorize::color(text, color))
}

/// The character of a decimal digit.
pub open spec fn digit_char(d: nat) -> char {
    if d == 0 {
        '0'
    } else if d == 1 {
        '1'
    } else if d == 2 {
        '2'
    } else if d == 3 {
        '3'
    } else if d == 4 {
        '4'
    } else if d == 5 {
        '5'
    } else if d == 6 {
        '6'
    } else if d == 7 {
        '7'
    } else if d == 8 {
        '8'
    } else {
        '9'
    }
}

/// The decimal notation of a natural number, without leading zeros.
pub open spec fn decimal(n: nat) -> Seq<char>
    decreases n,
{
    if n < 10 {
        seq![digit_char(n)]
    } else {
        decimal(n / 10) + seq![digit_char(n % 10)]
    }
}

proof fn lemma_decimal_escape_free(n: nat)
    ensures
        escape_free(decimal(n)),
    decreases n,
{
    if n >= 10 {
        lemma_decimal_escape_free(n / 10);
    }
}

/// The one-character text of a decimal digit.
fn digit_text(d: u64) -> (r: &'static str)
    requires
        d < 10,
    ensures
        r@ == seq![digit_char(d as nat)],
{
    if d == 0 {
        proof { reveal_strlit("0"); }
        "0"
    } else if d == 1 {
        proof { reveal_strlit("1"); }
        "1"
    } else if d == 2 {
        proof { reveal_strlit("2"); }
        "2"
    } else if d == 3 {
        proof { reveal_strlit("3"); }
        "3"
    } else if d == 4 {
        proof { reveal_strlit("4"); }
        "4"
    } else if d == 5 {
        proof { reveal_strlit("5"); }
        "5"
    } else if d == 6 {
        proof { reveal_strlit("6"); }
        "6"
    } else if d == 7 {
        proof { reveal_strlit("7"); }
        "7"
    } else if d == 8 {
        proof { reveal_strlit("8"); }
        "8"
    } else {
        proof { reveal_strlit("9"); }
        "9"
    }
}

/// Writes a number in decimal notation.
pub fn decimal_text(n: u64) -> (r: String)
    ensures
        r@ == decimal(n as nat),
    decreases n,
{
    if n < 10 {
        String::from_str(digit_text(n))
    } else {
        let mut r = decimal_text(n / 10);
        r.append(digit_text(n % 10));
        r
    }
}

/// The text of a tile with colouring switched off: a blank for an empty
/// cell, `*` for a mine and the count for a neighbour of mines.
pub open spec fn plain_glyph(t: Tile) -> Seq<char> {
    match t {
        Tile::Empty => seq![' '],
        Tile::Mine => seq!['*'],
        Tile::Neighbor(n) => decimal(n as nat),
    }
}

/// The colour a tile is drawn in.
pub open spec fn tile_shade(t: Tile) -> Shade {
    match t {
        Tile::Empty => Shade::Red,
        Tile::Mine => Shade::BrightRed,
        Tile::Neighbor(n) => if n == 1 {
            Shade::Cyan
        } else if n == 2 {
            Shade::Green
        } else if n == 3 {
            Shade::Yellow
        } else {
            Shade::Red
        },
    }
}

/// What the console rendering of a tile may be: the blank of an empty cell,
/// or the glyph of any other cell, coloured or not.
pub open spec fn rendered_as(r: Seq<char>, t: Tile) -> bool {
    if t is Empty {
        r == plain_glyph(t)
    } else {
        painted_as(r, plain_glyph(t), tile_shade(t))
    }
}

impl Tile {
    /// Text of this tile for a console dump of the mine field.
    pub fn console_output(&self) -> (r: String)
        ensures
            rendered_as(r@, *self),
    {
        match self {
            Tile::Empty => {
                proof { reveal_strlit(" "); }
                let r = String::from_str(" ");
                assert(r@ =~= seq![' ']);
                r
            },
            Tile::Mine => {
                proof { reveal_strlit("*"); }
                assert(escape_free("*"@));
                let r = paint("*", Shade::BrightRed);
                assert("*"@ =~= seq!['*']);
                r
            },
            Tile::Neighbor(n) => {
                let digits = decimal_text(*n as u64);
                proof { lemma_decimal_escape_free(*n as nat); }
                let shade = if *n == 1 {
                    Shade::Cyan
                } else if *n == 2 {
                    Shade::Green
                } else if *n == 3 {
                    Shade::Yellow
                } else {
                    Shade::Red
                };
                paint(digits.as_str(), shade)
            },
        }
    }
}

/// Which of `color_count` colours draws a count of `count` mines: the first
/// for one mine, the second for two and so on, the last one for counts past
/// the end, and `None` when there are no colours.
pub fn mine_counter_color_index(count: u8, color_count: usize) -> (r: Option<usize>)
    ensures
        r is None <==> color_count == 0,
        r matches Some(i) ==> i == if count <= 1 {
            0
        } else if count - 1 < color_count {
            count - 1
        } else {
            color_count - 1
        },
{
    let index = count.saturating_sub(1) as usize;
    if index < color_count {
        Some(index)
    } else if color_count > 0 {
        Some(color_count - 1)
    } else {
        None
    }
}

} // verus!
