//! Colour categories, the colours they are shown in, and the escape
//! sequences that switch a terminal to them.

use termion::color;
use vstd::prelude::*;
use crate::text::str_eq;

verus! {

/// What an entry, or a part of the listing, is: the key by which its colour
/// is looked up.
#[derive(Hash, Debug, PartialEq, Eq, Clone, Copy, Structural)]
pub enum ColorType {
    UnrecognizedFile,
    RecognizedFile,
    Dir,
    DeadLink,
    Link,
    Write,
    Read,
    Exec,
    NoAccess,
    DayOld,
    HourOld,
    NoModifier,
    Report,
    User,
    Tree,
    Empty,
    Normal,
}

impl ColorType {
    /// The category that a configuration file calls `name`.
    pub open spec fn named(name: Seq<char>) -> Option<ColorType> {
        if name == "unrecognized_file"@ {
            Some(ColorType::UnrecognizedFile)
        } else if name == "recognized_file"@ {
            Some(ColorType::RecognizedFile)
        } else if name == "dir"@ {
            Some(ColorType::Dir)
        } else if name == "dead_link"@ {
            Some(ColorType::DeadLink)
        } else if name == "link"@ {
            Some(ColorType::Link)
        } else if name == "write"@ {
            Some(ColorType::Write)
        } else if name == "read"@ {
            Some(ColorType::Read)
        } else if name == "exec"@ {
            Some(ColorType::Exec)
        } else if name == "no_access"@ {
            Some(ColorType::NoAccess)
        } else if name == "day_old"@ {
            Some(ColorType::DayOld)
        } else if name == "hour_old"@ {
            Some(ColorType::HourOld)
        } else if name == "no_modifier"@ {
            Some(ColorType::NoModifier)
        } else if name == "report"@ {
            Some(ColorType::Report)
        } else if name == "user"@ {
            Some(ColorType::User)
        } else if name == "tree"@ {
            Some(ColorType::Tree)
        } else if name == "empty"@ {
            Some(ColorType::Empty)
        } else if name == "normal"@ {
            Some(ColorType::Normal)
        } else {
            None
        }
    }

    /// Reads a category from its name in a configuration file; `None` for a
    /// name that stands for no category.
    pub fn from_name(name: &str) -> (parsed: Option<ColorType>)
        ensures
            parsed == ColorType::named(name@),
    {
        if str_eq(name, "unrecognized_file") {
            Some(ColorType::UnrecognizedFile)
        } else if str_eq(name, "recognized_file") {
            Some(ColorType::RecognizedFile)
        } else if str_eq(name, "dir") {
            Some(ColorType::Dir)
        } else if str_eq(name, "dead_link") {
            Some(ColorType::DeadLink)
        } else if str_eq(name, "link") {
            Some(ColorType::Link)
        } else if str_eq(name, "write") {
            Some(ColorType::Write)
        } else if str_eq(name, "read") {
            Some(ColorType::Read)
        } else if str_eq(name, "exec") {
            Some(ColorType::Exec)
        } else if str_eq(name, "no_access") {
            Some(ColorType::NoAccess)
        } else if str_eq(name, "day_old") {
            Some(ColorType::DayOld)
        } else if str_eq(name, "hour_old") {
            Some(ColorType::HourOld)
        } else if str_eq(name, "no_modifier") {
            Some(ColorType::NoModifier)
        } else if str_eq(name, "report") {
            Some(ColorType::Report)
        } else if str_eq(name, "user") {
            Some(ColorType::User)
        } else if str_eq(name, "tree") {
            Some(ColorType::Tree)
        } else if str_eq(name, "empty") {
            Some(ColorType::Empty)
        } else if str_eq(name, "normal") {
            Some(ColorType::Normal)
        } else {
            None
        }
    }
}

/// A colour that a category can be shown in.
#[derive(Hash, Debug, PartialEq, Eq, Clone, Copy, Structural)]
pub enum RealColor {
    Yellow,
    Green,
    Blue,
    Red,
    Cyan,
    Magenta,
    Grey,
    White,
    Black,
}

impl RealColor {
    /// The colour that a configuration file calls `name`.
    pub open spec fn named(name: Seq<char>) -> Option<RealColor> {
        if name == "yellow"@ {
            Some(RealColor::Yellow)
        } else if name == "green"@ {
            Some(RealColor::Green)
        } else if name == "blue"@ {
            Some(RealColor::Blue)
        } else if name == "red"@ {
            Some(RealColor::Red)
        } else if name == "cyan"@ {
            Some(RealColor::Cyan)
        } else if name == "magenta"@ {
            Some(RealColor::Magenta)
        } else if name == "grey"@ {
            Some(RealColor::Grey)
        } else if name == "white"@ {
            Some(RealColor::White)
        } else if name == "black"@ {
            Some(RealColor::Black)
        } else {
            None
        }
    }

    /// Reads a colour from its name in a configuration file; `None` for a
    /// name that stands for no colour.
    pub fn from_name(name: &str) -> (parsed: Option<RealColor>)
        ensures
            parsed == RealColor::named(name@),
    {
        if str_eq(name, "yellow") {
            Some(RealColor::Yellow)
        } else if str_eq(name, "green") {
            Some(RealColor::Green)
        } else if str_eq(name, "blue") {
            Some(RealColor::Blue)
        } else if str_eq(name, "red") {
            Some(RealColor::Red)
        } else if str_eq(name, "cyan") {
            Some(RealColor::Cyan)
        } else if str_eq(name, "magenta") {
            Some(RealColor::Magenta)
        } else if str_eq(name, "grey") {
            Some(RealColor::Grey)
        } else if str_eq(name, "white") {
            Some(RealColor::White)
        } else if str_eq(name, "black") {
            Some(RealColor::Black)
        } else {
            None
        }
    }
}

/// What a list of category/colour pairs maps `key` to: the colour of the
/// last pair with that category, if there is one.
pub open spec fn color_lookup(pairs: Seq<(ColorType, RealColor)>, key: ColorType) -> Option<RealColor>
    decreases pairs.len(),
{
    if pairs.len() == 0 {
        None
    } else if pairs.last().0 == key {
        Some(pairs.last().1)
    } else {
        color_lookup(pairs.drop_last(), key)
    }
}

/// The map that a list of category/colour pairs stands for.
pub open spec fn color_map_of(pairs: Seq<(ColorType, RealColor)>) -> Map<ColorType, RealColor> {
    Map::new(
        |k: ColorType| color_lookup(pairs, k) is Some,
        |k: ColorType| color_lookup(pairs, k).unwrap(),
    )
}

/// The table that says in which colour each category is shown.
///
/// Kept as a list of pairs in the order of insertion; a later pair shadows
/// an earlier one for the same category.
#[derive(Debug)]
pub struct ColorMap {
    entries: Vec<(ColorType, RealColor)>,
}

impl View for ColorMap {
    type V = Map<ColorType, RealColor>;

    closed spec fn view(&self) -> Map<ColorType, RealColor> {
        color_map_of(self.entries@)
    }
}

impl ColorMap {
    /// The table that gives no category a colour.
    pub fn new() -> (table: ColorMap)
        ensures
            table@ == Map::<ColorType, RealColor>::empty(),
    {
        let table = ColorMap { entries: Vec::new() };
        assert(table@ =~= Map::<ColorType, RealColor>::empty());
        table
    }

    /// Shows `category` in `shade` from now on.
    pub fn insert(&mut self, category: ColorType, shade: RealColor)
        ensures
            final(self)@ == old(self)@.insert(category, shade),
    {
        let ghost before = self.entries@;
        self.entries.push((category, shade));
        proof {
            let after = self.entries@;
            assert(after.drop_last() =~= before);
            assert forall|k: ColorType| #[trigger] color_lookup(after, k) == (if k == category {
                Some(shade)
            } else {
                color_lookup(before, k)
            }) by {}
            assert(color_map_of(after) =~= color_map_of(before).insert(category, shade));
        }
    }

    /// The colour in which `category` is shown, if the table names one.
    pub fn get(&self, category: &ColorType) -> (found: Option<RealColor>)
        ensures
            match found {
                Some(shade) => self@.contains_key(*category) && shade == self@[*category],
                None => !self@.contains_key(*category),
            },
    {
        let mut i: usize = self.entries.len();
        assert(self.entries@.take(i as int) =~= self.entries@);
        while i > 0
            invariant
                i <= self.entries.len(),
                color_lookup(self.entries@, *category) == color_lookup(
                    self.entries@.take(i as int),
                    *category,
                ),
            decreases i,
        {
            i -= 1;
            let ghost prefix = self.entries@.take(i + 1);
            assert(prefix.last() == self.entries@[i as int]);
            assert(prefix.drop_last() =~= self.entries@.take(i as int));
            if self.entries[i].0 == *category {
                return Some(self.entries[i].1);
            }
        }
        None
    }
}

impl Clone for ColorMap {
    fn clone(&self) -> (copy: ColorMap)
        ensures
            copy@ == self@,
    {
        let mut entries: Vec<(ColorType, RealColor)> = Vec::new();
        let mut i: usize = 0;
        while i < self.entries.len()
            invariant
                i <= self.entries.len(),
                entries@ == self.entries@.take(i as int),
            decreases self.entries.len() - i,
        {
            entries.push((self.entries[i].0, self.entries[i].1));
            assert(entries@ =~= self.entries@.take(i + 1));
            i += 1;
        }
        assert(entries@ =~= self.entries@);
        ColorMap { entries }
    }
}

/// A colour of the terminal's palette of 256, under the name by which the
/// terminal library knows it: one of its named colours, or a palette entry
/// by number.
#[derive(Debug, PartialEq, Eq, Clone, Copy, Structural)]
pub enum ColorWrapper {
    Red,
    Green,
    Yellow,
    Blue,
    Magenta,
    Cyan,
    AnsiValue(u8),
}

impl ColorWrapper {
    /// The number of the colour in the palette.
    pub open spec fn palette_index(self) -> u8 {
        match self {
            ColorWrapper::Red => 1,
            ColorWrapper::Green => 2,
            ColorWrapper::Yellow => 3,
            ColorWrapper::Blue => 4,
            ColorWrapper::Magenta => 5,
            ColorWrapper::Cyan => 6,
            ColorWrapper::AnsiValue(n) => n,
        }
    }
}

/// The character of a decimal digit.
pub open spec fn digit_char(d: u8) -> char {
    if d == 0 {
        '0'
    } else if d == 1 {
        '1'
    } else if d == 2 {
        '2'
    } else if d == 3 {
        '3'
    } else if d == 4 {
        '4'
    } else if d == 5 {
        '5'
    } else if d == 6 {
        '6'
    } else if d == 7 {
        '7'
    } else if d == 8 {
        '8'
    } else {
        '9'
    }
}

/// A palette number in decimal, without leading zeros.
pub open spec fn decimal(n: u8) -> Seq<char> {
    if n < 10 {
        seq![digit_char(n)]
    } else if n < 100 {
        seq![digit_char(n / 10), digit_char(n % 10)]
    } else {
        seq![digit_char(n / 100), digit_char((n / 10) % 10), digit_char(n % 10)]
    }
}

/// The escape sequence that sets the foreground to entry `n` of the palette:
/// ESC, `[38;5;`, the number, `m`.
pub open spec fn fg_escape(n: u8) -> Seq<char> {
    seq!['\x1b', '[', '3', '8', ';', '5', ';'] + decimal(n) + seq!['m']
}

/// The escape sequence that sets the foreground back to the terminal's
/// default: ESC, `[39m`.
pub open spec fn fg_reset_escape() -> Seq<char> {
    seq!['\x1b', '[', '3', '9', 'm']
}

/// How many characters the two escape sequences take: the one that sets a
/// colour has eight besides the digits of the palette number, the one that
/// resets has five.
pub proof fn lemma_escape_lengths(n: u8)
    ensures
        fg_escape(n).len() == (if n < 10 {
            9nat
        } else if n < 100 {
            10nat
        } else {
            11nat
        }),
        fg_reset_escape().len() == 5,
{
}

/// Calls `termion::color::AnsiValue::rgb`, which places a colour of the
/// 6×6×6 cube at palette entry `16 + 36 r + 6 g + b`. The crate asks for
/// components of at most 5.
#[verifier::external_body]
pub(crate) fn ansi_rgb(r: u8, g: u8, b: u8) -> (n: u8)
    requires
        r <= 5,
        g <= 5,
        b <= 5,
    ensures
        n == 16 + 36 * r + 6 * g + b,
{
    color::AnsiValue::rgb(r, g, b).0
}

/// Formats `termion::color::Fg(termion::color::Red)`: the crate writes the
/// sequence for palette entry 1.
#[verifier::external_body]
fn fg_red() -> (s: String)
    ensures
        s@ == fg_escape(1),
{
    format!("{}", color::Fg(color::Red))
}

/// Formats `termion::color::Fg(termion::color::Green)`: the crate writes
/// the sequence for palette entry 2.
#[verifier::external_body]
fn fg_green() -> (s: String)
    ensures
        s@ == fg_escape(2),
{
    format!("{}", color::Fg(color::Green))
}

/// Formats `termion::color::Fg(termion::color::Yellow)`: the crate writes
/// the sequence for palette entry 3.
#[verifier::external_body]
fn fg_yellow() -> (s: String)
    ensures
        s@ == fg_escape(3),
{
    format!("{}", color::Fg(color::Yellow))
}

/// Formats `termion::color::Fg(termion::color::Blue)`: the crate writes the
/// sequence for palette entry 4.
#[verifier::external_body]
fn fg_blue() -> (s: String)
    ensures
        s@ == fg_escape(4),
{
    format!("{}", color::Fg(color::Blue))
}

/// Formats `termion::color::Fg(termion::color::Magenta)`: the crate writes
/// the sequence for palette entry 5.
#[verifier::external_body]
fn fg_magenta() -> (s: String)
    ensures
        s@ == fg_escape(5),
{
    format!("{}", color::Fg(color::Magenta))
}

/// Formats `termion::color::Fg(termion::color::Cyan)`: the crate writes the
/// sequence for palette entry 6.
#[verifier::external_body]
fn fg_cyan() -> (s: String)
    ensures
        s@ == fg_escape(6),
{
    format!("{}", color::Fg(color::Cyan))
}

/// Formats `termion::color::Fg(termion::color::AnsiValue(n))`: the crate
/// writes ESC, `[38;5;`, `n` in decimal, and `m`.
#[verifier::external_body]
fn fg_ansi(n: u8) -> (s: String)
    ensures
        s@ == fg_escape(n),
{
    format!("{}", color::Fg(color::AnsiValue(n)))
}

/// The escape sequence that sets the foreground to the colour.
pub(crate) fn fg_sequence(c: ColorWrapper) -> (s: String)
    ensures
        s@ == fg_escape(c.palette_index()),
{
    match c {
        ColorWrapper::Red => fg_red(),
        ColorWrapper::Green => fg_green(),
        ColorWrapper::Yellow => fg_yellow(),
        ColorWrapper::Blue => fg_blue(),
        ColorWrapper::Magenta => fg_magenta(),
        ColorWrapper::Cyan => fg_cyan(),
        ColorWrapper::AnsiValue(n) => fg_ansi(n),
    }
}

/// Formats `termion::color::Fg(termion::color::Reset)`, for which the crate
/// writes ESC and `[39m`.
#[verifier::external_body]
pub(crate) fn fg_reset_sequence() -> (s: String)
    ensures
        s@ == fg_reset_escape(),
{
    format!("{}", color::Fg(color::Reset))
}

} // verus!
