use vstd::prelude::*;

verus! {

/// The named glyph palettes.
#[derive(Debug, Clone, Copy, PartialEq, Eq, Structural)]
pub enum Style {
    Thin,
    Thick,
    Double,
    Chest,
    Balloon,
    Balloon2,
}

/// The glyphs a diagram is drawn with.
///
/// A corner is named by where it sits on a box (`up_and_left` is the top-left
/// corner); a tee by the side its stem leaves from (`down_and_horizontal` is
/// a horizontal line with a stem going down).
#[derive(Debug, Clone, Copy)]
pub struct BoxDrawings {
    pub up_and_left: char,
    pub up_and_right: char,
    pub down_and_left: char,
    pub down_and_right: char,
    pub vertical: char,
    pub horizontal: char,
    pub vertical_and_horizontal: char,
    pub down_and_horizontal: char,
    pub up_and_horizontal: char,
    /// Where a box meets the line from its parent; `up_and_horizontal` if `None`.
    pub top_connection: Option<char>,
    /// Where a box meets the line to its children; `down_and_horizontal` if `None`.
    pub bottom_connection: Option<char>,
}

/// The glyphs of each named palette.
pub open spec fn palette(style: Style) -> BoxDrawings {
    match style {
        Style::Thin => BoxDrawings {
            up_and_left: '┌',
            up_and_right: '┐',
            down_and_left: '└',
            down_and_right: '┘',
            vertical: '│',
            horizontal: '─',
            vertical_and_horizontal: '┼',
            down_and_horizontal: '┬',
            up_and_horizontal: '┴',
            top_connection: None,
            bottom_connection: None,
        },
        Style::Thick => BoxDrawings {
            up_and_left: '┏',
            up_and_right: '┓',
            down_and_left: '┗',
            down_and_right: '┛',
            vertical: '┃',
            horizontal: '━',
            vertical_and_horizontal: '╋',
            down_and_horizontal: '┳',
            up_and_horizontal: '┻',
            top_connection: None,
            bottom_connection: None,
        },
        Style::Double => BoxDrawings {
            up_and_left: '╔',
            up_and_right: '╗',
            down_and_left: '╚',
            down_and_right: '╝',
            vertical: '║',
            horizontal: '═',
            vertical_and_horizontal: '╬',
            down_and_horizontal: '╦',
            up_and_horizontal: '╩',
            top_connection: None,
            bottom_connection: None,
        },
        Style::Chest => BoxDrawings {
            up_and_left: '╔',
            up_and_right: '╗',
            down_and_left: '╚',
            down_and_right: '╝',
            vertical: '┃',
            horizontal: '━',
            vertical_and_horizontal: '╋',
            down_and_horizontal: '┳',
            up_and_horizontal: '┻',
            top_connection: None,
            bottom_connection: None,
        },
        Style::Balloon => BoxDrawings {
            up_and_left: '╭',
            up_and_right: '╮',
            down_and_left: '╰',
            down_and_right: '╯',
            vertical: '│',
            horizontal: '─',
            vertical_and_horizontal: '┼',
            down_and_horizontal: '┬',
            up_and_horizontal: '┴',
            top_connection: None,
            bottom_connection: None,
        },
        Style::Balloon2 => BoxDrawings {
            up_and_left: '╭',
            up_and_right: '╮',
            down_and_left: '╰',
            down_and_right: '╯',
            vertical: '│',
            horizontal: '─',
            vertical_and_horizontal: '┼',
            down_and_horizontal: '┬',
            up_and_horizontal: '┴',
            top_connection: Some('¤'),
            bottom_connection: Some('¤'),
        },
    }
}

impl BoxDrawings {
    /// The glyphs of the palette `style`.
    pub fn new(style: Style) -> (drawings: BoxDrawings)
        ensures
            drawings == palette(style),
    {
        match style {
            Style::Thin => BoxDrawings {
                up_and_left: '┌',
                up_and_right: '┐',
                down_and_left: '└',
                down_and_right: '┘',
                vertical: '│',
                horizontal: '─',
                vertical_and_horizontal: '┼',
                down_and_horizontal: '┬',
                up_and_horizontal: '┴',
                top_connection: None,
                bottom_connection: None,
            },
            Style::Thick => BoxDrawings {
                up_and_left: '┏',
                up_and_right: '┓',
                down_and_left: '┗',
                down_and_right: '┛',
                vertical: '┃',
                horizontal: '━',
                vertical_and_horizontal: '╋',
                down_and_horizontal: '┳',
                up_and_horizontal: '┻',
                top_connection: None,
                bottom_connection: None,
            },
            Style::Double => BoxDrawings {
                up_and_left: '╔',
                up_and_right: '╗',
                down_and_left: '╚',
                down_and_right: '╝',
                vertical: '║',
                horizontal: '═',
                vertical_and_horizontal: '╬',
                down_and_horizontal: '╦',
                up_and_horizontal: '╩',
                top_connection: None,
                bottom_connection: None,
            },
            Style::Chest => BoxDrawings {
                up_and_left: '╔',
                up_and_right: '╗',
                down_and_left: '╚',
                down_and_right: '╝',
                vertical: '┃',
                horizontal: '━',
                vertical_and_horizontal: '╋',
                down_and_horizontal: '┳',
                up_and_horizontal: '┻',
                top_connection: None,
                bottom_connection: None,
            },
            Style::Balloon => BoxDrawings {
                up_and_left: '╭',
                up_and_right: '╮',
                down_and_left: '╰',
                down_and_right: '╯',
                vertical: '│',
                horizontal: '─',
                vertical_and_horizontal: '┼',
                down_and_horizontal: '┬',
                up_and_horizontal: '┴',
                top_connection: None,
                bottom_connection: None,
            },
            Style::Balloon2 => BoxDrawings {
                up_and_left: '╭',
                up_and_right: '╮',
                down_and_left: '╰',
                down_and_right: '╯',
                vertical: '│',
                horizontal: '─',
                vertical_and_horizontal: '┼',
                down_and_horizontal: '┬',
                up_and_horizontal: '┴',
                top_connection: Some('¤'),
                bottom_connection: Some('¤'),
            },
        }
    }
}

/// The glyph on a box's top border above its centre, when a line from a parent arrives there.
pub open spec fn top_connector(style: BoxDrawings) -> char {
    match style.top_connection {
        Some(c) => c,
        None => style.up_and_horizontal,
    }
}

/// The glyph on a box's bottom border below its centre, when a line to children leaves there.
pub open spec fn bottom_connector(style: BoxDrawings) -> char {
    match style.bottom_connection {
        Some(c) => c,
        None => style.down_and_horizontal,
    }
}

} // verus!
