//! Value and label coloring for pretty-printed structures.
//!
//! Colored values are wrapped in ANSI escape sequences: values in bold
//! with the field's color (bright white when none is set), labels in the
//! plain color.

use vstd::prelude::*;

verus! {

/// The colors a field or label can take.
#[derive(PartialEq, Eq, Structural, Clone, Copy, Debug)]
pub enum Color {
    Black,
    Blue,
    Cyan,
    Green,
    Magenta,
    Red,
    White,
    Yellow,
}

/// How a field is introduced: by a padded label, by continuation lines,
/// or not at all.
pub enum FieldPrefix {
    Label { label: String, label_color: Option<Color> },
    Multiline,
    NoPrefix,
}

/// The ANSI code setting `c` as foreground color.
pub open spec fn color_code(c: Color) -> Seq<char> {
    match c {
        Color::Black => "\u{1b}[30m"@,
        Color::Red => "\u{1b}[31m"@,
        Color::Green => "\u{1b}[32m"@,
        Color::Yellow => "\u{1b}[33m"@,
        Color::Blue => "\u{1b}[34m"@,
        Color::Magenta => "\u{1b}[35m"@,
        Color::Cyan => "\u{1b}[36m"@,
        Color::White => "\u{1b}[37m"@,
    }
}

/// What a colored value looks like: bold, in the given color (bright
/// white when none is given), both reset at the end.
pub open spec fn colored_value(value: Seq<char>, color: Option<Color>) -> Seq<char> {
    "\u{1b}[1m"@ + (match color {
        Some(c) => color_code(c),
        None => "\u{1b}[97m"@,
    }) + value + "\u{1b}[39m"@ + "\u{1b}[0m"@
}

/// Color a field value for display.
pub fn coloring(value: String, color: &Option<Color>) -> (r: String)
    ensures
        r@ == colored_value(value@, *color),
{
    let code: &str = match color {
        Some(c) => match c {
            Color::Black => "\u{1b}[30m",
            Color::Red => "\u{1b}[31m",
            Color::Green => "\u{1b}[32m",
            Color::Yellow => "\u{1b}[33m",
            Color::Blue => "\u{1b}[34m",
            Color::Magenta => "\u{1b}[35m",
            Color::Cyan => "\u{1b}[36m",
            Color::White => "\u{1b}[37m",
        },
        None => "\u{1b}[97m",
    };
    String::from_str("\u{1b}[1m").concat(code).concat(value.as_str()).concat(
        "\u{1b}[39m",
    ).concat("\u{1b}[0m")
}

/// What a colored label looks like: the plain color without bold, or the
/// label untouched when uncolored or colorless.
pub open spec fn colored_label(label: Seq<char>, colored: bool, color: Option<Color>) -> Seq<
    char,
> {
    if colored {
        match color {
            Some(c) => color_code(c) + label + "\u{1b}[39m"@,
            None => label,
        }
    } else {
        label
    }
}

/// Color a field label for display.
pub fn label_coloring(label: &str, colored: bool, color: &Option<Color>) -> (r: String)
    ensures
        r@ == colored_label(label@, colored, *color),
{
    if colored {
        match color {
            Some(c) => {
                let code: &str = match c {
                    Color::Black => "\u{1b}[30m",
                    Color::Red => "\u{1b}[31m",
                    Color::Green => "\u{1b}[32m",
                    Color::Yellow => "\u{1b}[33m",
                    Color::Blue => "\u{1b}[34m",
                    Color::Magenta => "\u{1b}[35m",
                    Color::Cyan => "\u{1b}[36m",
                    Color::White => "\u{1b}[37m",
                };
                String::from_str(code).concat(label).concat("\u{1b}[39m")
            },
            None => String::from_str(label),
        }
    } else {
        String::from_str(label)
    }
}

} // verus!
