use vstd::prelude::*;
use colored::{ColoredString, Colorize};
use comfy_table::{Cell, Table};

use crate::scan::{replace_all, split_on};

verus! {

/// `colored::ColoredString`, a text with a terminal style.
#[verifier::external_type_specification]
#[verifier::external_body]
pub struct ExColoredString(ColoredString);

/// `comfy_table::Table`.
#[verifier::external_type_specification]
#[verifier::external_body]
pub struct ExTable(Table);

/// `comfy_table::Cell`.
#[verifier::external_type_specification]
#[verifier::external_body]
pub struct ExCell(Cell);

/// A foreground colour of a styled text.
#[derive(Clone, Copy, Debug, PartialEq, Eq, Structural)]
pub enum TextColor {
    Cyan,
    Yellow,
}

/// What a styled text holds: its plain text, whether it is bold, and its foreground
/// colour.
pub struct ColoredLook {
    pub input: Seq<char>,
    pub bold: bool,
    pub fg: Option<TextColor>,
}

/// The contents of a styled text (`ColoredString`'s `input`, `style` and `fgcolor`)
/// where it has no background colour, no style but bold, and no foreground colour
/// or a cyan or yellow one; `None` for any other styled text.
pub uninterp spec fn colored_value(s: ColoredString) -> Option<ColoredLook>;

/// The escape sequence that ends a styled text.
pub open spec fn reset_code() -> Seq<char> {
    seq!['\x1b', '[', '0', 'm']
}

/// The escape sequence that starts a text with the given boldness and foreground
/// colour: the codes `1` (bold), `36` (cyan) and `33` (yellow), joined by `;`.
pub open spec fn style_code(bold: bool, fg: Option<TextColor>) -> Seq<char> {
    let b: Seq<char> = if bold { seq!['1'] } else { Seq::empty() };
    let sep: Seq<char> = if bold && fg is Some { seq![';'] } else { Seq::empty() };
    let c: Seq<char> = match fg {
        Some(TextColor::Cyan) => seq!['3', '6'],
        Some(TextColor::Yellow) => seq!['3', '3'],
        None => Seq::empty(),
    };
    seq!['\x1b', '['] + b + sep + c + seq!['m']
}

/// `text` left-aligned in `width` columns: followed by spaces up to `width`
/// characters (what `str`'s `Display` writes with a width).
pub open spec fn pad_right(text: Seq<char>, width: usize) -> Seq<char> {
    if text.len() < width {
        text + Seq::new((width - text.len()) as nat, |i: int| ' ')
    } else {
        text
    }
}

/// What `ColoredString`'s `Display` writes, left-aligned in `width` columns, with
/// colours on or off: with colours on and some style, the style's escape sequence,
/// the text (each reset sequence in it followed by the style again) padded to
/// `width`, and the reset sequence; otherwise the text padded to `width`.
pub open spec fn colored_writing(look: ColoredLook, width: usize, on: bool) -> Seq<char> {
    if on && (look.bold || look.fg is Some) {
        let code = style_code(look.bold, look.fg);
        code + pad_right(replace_all(look.input, reset_code(), reset_code() + code), width) + reset_code()
    } else {
        pad_right(look.input, width)
    }
}

/// `Colorize::bold` on a text: the text, bold, with no colour.
#[verifier::external_body]
pub(crate) fn bold(text: &str) -> (s: ColoredString)
    ensures
        colored_value(s) == Some(ColoredLook { input: text@, bold: true, fg: None }),
{
    text.bold()
}

/// `Colorize::cyan` on a styled text: the same text and boldness, the foreground
/// colour set to cyan (nothing is claimed of a text outside `colored_value`).
#[verifier::external_body]
pub(crate) fn cyan(s: ColoredString) -> (r: ColoredString)
    ensures
        colored_value(s) is Some ==> colored_value(r) == Some(
            ColoredLook { input: colored_value(s)->0.input, bold: colored_value(s)->0.bold, fg: Some(TextColor::Cyan) },
        ),
{
    s.cyan()
}

/// `Colorize::yellow` on a text: the text, not bold, in yellow.
#[verifier::external_body]
pub(crate) fn yellow(text: &str) -> (s: ColoredString)
    ensures
        colored_value(s) == Some(ColoredLook { input: text@, bold: false, fg: Some(TextColor::Yellow) }),
{
    text.yellow()
}

/// A styled text written left-aligned in `width` columns (`Display` with a width).
/// Whether escape sequences are written depends on `colored`'s global setting,
/// which the environment or an override decides, so the contract claims the writing
/// for one of the two.
#[verifier::external_body]
pub(crate) fn padded(s: &ColoredString, width: usize) -> (r: String)
    requires
        colored_value(*s) is Some,
    ensures
        exists|on: bool| r@ == #[trigger] colored_writing(colored_value(*s)->0, width, on),
{
    format!("{:<width$}", s, width = width)
}

/// A foreground colour of a table cell.
#[derive(Clone, Copy, Debug, PartialEq, Eq, Structural)]
pub enum CellColor {
    Green,
    Cyan,
}

/// What a table cell holds: its lines and its foreground colour.
pub struct CellModel {
    pub lines: Seq<Seq<char>>,
    pub color: Option<CellColor>,
}

/// The lines that a cell holds (`Cell`'s `content`).
pub uninterp spec fn cell_lines(c: Cell) -> Seq<Seq<char>>;

/// The foreground colour that a cell was given, if any (`Cell`'s `fg`).
pub uninterp spec fn cell_color(c: Cell) -> Option<CellColor>;

/// A cell as a mathematical value.
pub open spec fn cell_model(c: Cell) -> CellModel {
    CellModel { lines: cell_lines(c), color: cell_color(c) }
}

/// The rows of a table, cell by cell (`Table`'s `rows`).
pub uninterp spec fn table_body(t: Table) -> Seq<Seq<CellModel>>;

/// The header of a table, if one was set (`Table`'s `header`).
pub uninterp spec fn table_heading(t: Table) -> Option<Seq<CellModel>>;

/// The characters that draw a table's parts (`Table`'s `style`): the parts are
/// numbered as `TableComponent` lists them, from 0 to 18, and a part that is not
/// drawn has no character.
pub uninterp spec fn table_style(t: Table) -> Map<int, char>;

/// The style after `Table::load_preset`: each of the first parts gets the preset's
/// character, or none where that is a space; parts past the preset's end keep
/// theirs.
pub open spec fn preset_loaded(style: Map<int, char>, preset: Seq<char>) -> Map<int, char> {
    Map::new(
        |i: int| 0 <= i < 19 && if i < preset.len() { preset[i] != ' ' } else { style.dom().contains(i) },
        |i: int| if i < preset.len() { preset[i] } else { style[i] },
    )
}

/// The style after `Table::apply_modifier`: each part gets the modifier's
/// character, unless that is a space or past the modifier's end.
pub open spec fn modifier_applied(style: Map<int, char>, modifier: Seq<char>) -> Map<int, char> {
    Map::new(
        |i: int| 0 <= i < 19 && ((i < modifier.len() && modifier[i] != ' ') || style.dom().contains(i)),
        |i: int| if i < modifier.len() && modifier[i] != ' ' { modifier[i] } else { style[i] },
    )
}

/// What `comfy_table` draws for a table with the given style, header and rows
/// (cells made by `Cell::new`, at most coloured), all other settings left as
/// `Table::new` makes them, with or without terminal styling, and with crossterm's
/// colour codes written or left out (`NO_COLOR`).
pub uninterp spec fn table_drawing(
    style: Map<int, char>,
    heading: Option<Seq<CellModel>>,
    body: Seq<Seq<CellModel>>,
    styled: bool,
    ansi_colors: bool,
) -> Seq<char>;

/// True when the table was told never to style (`Table`'s `no_tty`).
pub uninterp spec fn table_no_tty(t: Table) -> bool;

/// Whether a table is styled: where `comfy_table` would style it and the table was
/// not told never to.
pub open spec fn tty_styling(styled: bool, no_tty: bool) -> bool {
    styled && !no_tty
}

/// The style that `Table::new` loads (`ASCII_FULL`).
pub open spec fn ascii_full() -> Seq<char> {
    "||--+==+|-+||++++++"@
}

/// The `UTF8_FULL` preset.
pub open spec fn utf8_full() -> Seq<char> {
    "││──╞═╪╡┆╌┼├┤┬┴┌┐└┘"@
}

/// The `UTF8_ROUND_CORNERS` modifier.
pub open spec fn utf8_round_corners() -> Seq<char> {
    "               ╭╮╰╯"@
}

/// `Table::new`: no header, no rows, the `ASCII_FULL` style.
#[verifier::external_body]
pub(crate) fn table_new() -> (t: Table)
    ensures
        table_style(t) == preset_loaded(Map::empty(), ascii_full()),
        table_heading(t) is None,
        table_body(t) == Seq::<Seq<CellModel>>::empty(),
        !table_no_tty(t),
{
    Table::new()
}

/// `Table::force_no_tty`: the table is never styled; style, header and rows stay.
#[verifier::external_body]
pub(crate) fn table_force_no_tty(t: &mut Table)
    ensures
        table_style(*final(t)) == table_style(*old(t)),
        table_heading(*final(t)) == table_heading(*old(t)),
        table_body(*final(t)) == table_body(*old(t)),
        table_no_tty(*final(t)),
{
    t.force_no_tty();
}

/// `Table::load_preset` with `UTF8_FULL`: the preset is applied; header and rows
/// stay.
#[verifier::external_body]
pub(crate) fn table_full_preset(t: &mut Table)
    ensures
        table_style(*final(t)) == preset_loaded(table_style(*old(t)), utf8_full()),
        table_heading(*final(t)) == table_heading(*old(t)),
        table_body(*final(t)) == table_body(*old(t)),
        table_no_tty(*final(t)) == table_no_tty(*old(t)),
{
    t.load_preset(comfy_table::presets::UTF8_FULL);
}

/// `Table::apply_modifier` with `UTF8_ROUND_CORNERS`: the modifier is applied;
/// header and rows stay.
#[verifier::external_body]
pub(crate) fn table_round_corners(t: &mut Table)
    ensures
        table_style(*final(t)) == modifier_applied(table_style(*old(t)), utf8_round_corners()),
        table_heading(*final(t)) == table_heading(*old(t)),
        table_body(*final(t)) == table_body(*old(t)),
        table_no_tty(*final(t)) == table_no_tty(*old(t)),
{
    t.apply_modifier(comfy_table::modifiers::UTF8_ROUND_CORNERS);
}

/// `Table::set_header`: the cells become the header; style and rows stay.
#[verifier::external_body]
pub(crate) fn table_set_header(t: &mut Table, cells: Vec<Cell>)
    ensures
        table_style(*final(t)) == table_style(*old(t)),
        table_heading(*final(t)) == Some(cells@.map_values(|c: Cell| cell_model(c))),
        table_body(*final(t)) == table_body(*old(t)),
        table_no_tty(*final(t)) == table_no_tty(*old(t)),
{
    t.set_header(cells);
}

/// `Table::add_row`: the cells are added as the last row; style and header stay.
#[verifier::external_body]
pub(crate) fn table_add_row(t: &mut Table, cells: Vec<Cell>)
    ensures
        table_style(*final(t)) == table_style(*old(t)),
        table_heading(*final(t)) == table_heading(*old(t)),
        table_body(*final(t)) == table_body(*old(t)).push(cells@.map_values(|c: Cell| cell_model(c))),
        table_no_tty(*final(t)) == table_no_tty(*old(t)),
{
    t.add_row(cells);
}

/// The table drawn as text (`ToString`). The drawing is a function of the table's
/// style, header and rows, of whether `comfy_table` styles it, which it does where
/// standard output is a terminal unless the table was told never to, and, where it
/// styles, of whether crossterm writes colour codes, which `NO_COLOR` or a setting
/// of crossterm decides. The contract claims one of these drawings, and an
/// unstyled one for a table told never to style.
#[verifier::external_body]
pub(crate) fn table_text(t: &Table) -> (r: String)
    ensures
        exists|styled: bool, ansi_colors: bool|
            r@ == #[trigger] table_drawing(table_style(*t), table_heading(*t), table_body(*t), tty_styling(styled, table_no_tty(*t)), ansi_colors),
{
    t.to_string()
}

/// `Cell::new`: the cell holds the text split at line feeds, with no colour.
#[verifier::external_body]
pub(crate) fn cell_new(text: String) -> (c: Cell)
    ensures
        cell_lines(c) == split_on(text@, '\n'),
        cell_color(c) is None,
{
    Cell::new(text)
}

/// `Cell::fg` with green: the same lines, coloured green.
#[verifier::external_body]
pub(crate) fn cell_green(c: Cell) -> (r: Cell)
    ensures
        cell_lines(r) == cell_lines(c),
        cell_color(r) == Some(CellColor::Green),
{
    c.fg(comfy_table::Color::Green)
}

/// `Cell::fg` with cyan: the same lines, coloured cyan.
#[verifier::external_body]
pub(crate) fn cell_cyan(c: Cell) -> (r: Cell)
    ensures
        cell_lines(r) == cell_lines(c),
        cell_color(r) == Some(CellColor::Cyan),
{
    c.fg(comfy_table::Color::Cyan)
}

} // verus!
