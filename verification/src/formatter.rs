//! Entries, the glyph and colour each one gets, and the two ways of writing
//! an entry into a cell of the listing.

use unicode_segmentation::UnicodeSegmentation;
use vstd::prelude::*;
use vstd::string::StrSliceExecFns;
use vstd::string::StringExecFns;
use crate::colors::{
    ansi_rgb, fg_escape, fg_reset_escape, fg_reset_sequence, fg_sequence, ColorMap, ColorType,
    ColorWrapper, RealColor,
};
use crate::options::Options;

verus! {

/// What is needed to write one entry into a cell: the glyph tables, the
/// alias tables, the colour table and the width of the cell's column.
///
/// A layout holds one of these per column; they differ in `width` alone.
#[derive(Debug)]
pub struct EntryConfig {
    pub files: Options,
    pub file_aliases: Options,
    pub folders: Options,
    pub folder_aliases: Options,
    pub colors: ColorMap,
    pub width: usize,
}

/// An [`EntryConfig`] as plain values.
pub struct EntryConfigView {
    pub files: Map<Seq<char>, Seq<char>>,
    pub file_aliases: Map<Seq<char>, Seq<char>>,
    pub folders: Map<Seq<char>, Seq<char>>,
    pub folder_aliases: Map<Seq<char>, Seq<char>>,
    pub colors: Map<ColorType, RealColor>,
    pub width: usize,
}

impl View for EntryConfig {
    type V = EntryConfigView;

    open spec fn view(&self) -> EntryConfigView {
        EntryConfigView {
            files: self.files@,
            file_aliases: self.file_aliases@,
            folders: self.folders@,
            folder_aliases: self.folder_aliases@,
            colors: self.colors@,
            width: self.width,
        }
    }
}

impl EntryConfigView {
    /// The same tables for a column of another width.
    pub open spec fn with_width(self, width: usize) -> EntryConfigView {
        EntryConfigView { width, ..self }
    }

    /// The glyph tables hold the glyphs that stand in for an unknown file
    /// and an unknown folder.
    pub open spec fn has_fallbacks(self) -> bool {
        self.files.contains_key("file"@) && self.folders.contains_key("folder"@)
    }
}

/// What is wrong with a configuration that cannot be used.
#[derive(Debug, PartialEq, Eq, Clone, Copy, Structural)]
pub enum ConfigError {
    /// The file glyph table has no entry `file`.
    MissingFileFallback,
    /// The folder glyph table has no entry `folder`.
    MissingFolderFallback,
}

impl EntryConfig {
    /// Checks, once for a whole run, that both fallback glyphs are there.
    pub fn check(&self) -> (verdict: Result<(), ConfigError>)
        ensures
            verdict is Ok <==> self@.has_fallbacks(),
            verdict == Err::<(), ConfigError>(ConfigError::MissingFileFallback)
                <==> !self@.files.contains_key("file"@),
            verdict == Err::<(), ConfigError>(ConfigError::MissingFolderFallback) <==> (
            self@.files.contains_key("file"@) && !self@.folders.contains_key("folder"@)),
    {
        if !self.files.contains_key("file") {
            Err(ConfigError::MissingFileFallback)
        } else if !self.folders.contains_key("folder") {
            Err(ConfigError::MissingFolderFallback)
        } else {
            Ok(())
        }
    }

    /// The same tables for a column of width `width`.
    pub fn with_width(&self, width: usize) -> (column: EntryConfig)
        ensures
            column@ == self@.with_width(width),
    {
        EntryConfig {
            files: self.files.clone(),
            file_aliases: self.file_aliases.clone(),
            folders: self.folders.clone(),
            folder_aliases: self.folder_aliases.clone(),
            colors: self.colors.clone(),
            width,
        }
    }
}

impl Clone for EntryConfig {
    fn clone(&self) -> (copy: EntryConfig)
        ensures
            copy@ == self@,
    {
        self.with_width(self.width)
    }
}

/// The glyph and the colour category of an entry.
#[derive(Debug, PartialEq, Eq)]
pub struct Attr {
    pub icon: String,
    pub color: ColorType,
}

/// An [`Attr`] as plain values.
pub struct AttrView {
    pub icon: Seq<char>,
    pub color: ColorType,
}

impl View for Attr {
    type V = AttrView;

    open spec fn view(&self) -> AttrView {
        AttrView { icon: self.icon@, color: self.color }
    }
}

impl Clone for Attr {
    fn clone(&self) -> (copy: Attr)
        ensures
            copy@ == self@,
    {
        Attr { icon: self.icon.clone(), color: self.color }
    }
}

/// The attribute of a file whose lookup key is `suffix`: its own glyph if
/// the table has one, else the glyph under `file`.
pub open spec fn file_attr(files: Map<Seq<char>, Seq<char>>, suffix: Seq<char>) -> AttrView {
    if files.contains_key(suffix) {
        AttrView { icon: files[suffix], color: ColorType::RecognizedFile }
    } else {
        AttrView { icon: files["file"@], color: ColorType::UnrecognizedFile }
    }
}

/// As [`file_attr`], after one step through the alias table.
pub open spec fn file_attr_alias(config: EntryConfigView, suffix: Seq<char>) -> AttrView {
    if config.file_aliases.contains_key(suffix) {
        file_attr(config.files, config.file_aliases[suffix])
    } else {
        file_attr(config.files, suffix)
    }
}

/// The attribute of a folder called `name`: its own glyph if the table has
/// one, else the glyph under `folder`.
pub open spec fn folder_attr(folders: Map<Seq<char>, Seq<char>>, name: Seq<char>) -> AttrView {
    if folders.contains_key(name) {
        AttrView { icon: folders[name], color: ColorType::Dir }
    } else {
        AttrView { icon: folders["folder"@], color: ColorType::Dir }
    }
}

/// As [`folder_attr`], after one step through the alias table.
pub open spec fn folder_attr_alias(config: EntryConfigView, name: Seq<char>) -> AttrView {
    if config.folder_aliases.contains_key(name) {
        folder_attr(config.folders, config.folder_aliases[name])
    } else {
        folder_attr(config.folders, name)
    }
}

/// Glyph and category of a file by its lookup key.
pub fn get_file_attr(conf: &EntryConfig, suffix: &str) -> (attr: Attr)
    requires
        conf@.files.contains_key("file"@),
    ensures
        attr@ == file_attr(conf@.files, suffix@),
{
    match conf.files.get(suffix) {
        Some(icon) => Attr { icon: icon.clone(), color: ColorType::RecognizedFile },
        None => {
            let fallback = conf.files.get("file");
            Attr { icon: fallback.unwrap().clone(), color: ColorType::UnrecognizedFile }
        },
    }
}

/// Glyph and category of a file by its lookup key or the key's alias.
pub fn get_file_attr_alias(conf: &EntryConfig, suffix: &str) -> (attr: Attr)
    requires
        conf@.files.contains_key("file"@),
    ensures
        attr@ == file_attr_alias(conf@, suffix@),
{
    match conf.file_aliases.get(suffix) {
        Some(alias) => get_file_attr(conf, alias.as_str()),
        None => get_file_attr(conf, suffix),
    }
}

/// Glyph and category of a folder by its name.
pub fn get_folder_attr(conf: &EntryConfig, name: &str) -> (attr: Attr)
    requires
        conf@.folders.contains_key("folder"@),
    ensures
        attr@ == folder_attr(conf@.folders, name@),
{
    match conf.folders.get(name) {
        Some(icon) => Attr { icon: icon.clone(), color: ColorType::Dir },
        None => {
            let fallback = conf.folders.get("folder");
            Attr { icon: fallback.unwrap().clone(), color: ColorType::Dir }
        },
    }
}

/// Glyph and category of a folder by its name or the name's alias.
pub fn get_folder_attr_alias(conf: &EntryConfig, name: &str) -> (attr: Attr)
    requires
        conf@.folders.contains_key("folder"@),
    ensures
        attr@ == folder_attr_alias(conf@, name@),
{
    match conf.folder_aliases.get(name) {
        Some(alias) => get_folder_attr(conf, alias.as_str()),
        None => get_folder_attr(conf, name),
    }
}

/// Where the last `.` of `name` stands, if it has one.
pub open spec fn last_dot(name: Seq<char>) -> Option<int>
    decreases name.len(),
{
    if name.len() == 0 {
        None
    } else if name.last() == '.' {
        Some(name.len() - 1)
    } else {
        last_dot(name.drop_last())
    }
}

/// The extension of a file name: what follows its last `.`, unless the
/// name has no `.` or its only `.` is the first character.
pub open spec fn extension_of(name: Seq<char>) -> Option<Seq<char>> {
    match last_dot(name) {
        None => None,
        Some(dot) => if dot == 0 {
            None
        } else {
            Some(name.skip(dot + 1))
        },
    }
}

/// The key under which a file's glyph is looked up: the extension, or for
/// a name without one the name less its first character, so that `.bashrc`
/// is found under `bashrc`.
pub open spec fn lookup_key(name: Seq<char>) -> Seq<char> {
    match extension_of(name) {
        Some(extension) => extension,
        None => name.drop_first(),
    }
}

/// `last_dot` finds a `.`, and none stands after it.
pub proof fn lemma_last_dot(name: Seq<char>)
    ensures
        match last_dot(name) {
            Some(dot) => 0 <= dot < name.len() && name[dot] == '.' && forall|k: int|
                dot < k < name.len() ==> name[k] != '.',
            None => forall|k: int| 0 <= k < name.len() ==> name[k] != '.',
        },
    decreases name.len(),
{
    if name.len() > 0 && name.last() != '.' {
        let front = name.drop_last();
        lemma_last_dot(front);
        assert forall|k: int| 0 <= k < front.len() implies front[k] == name[k] by {}
    }
}

/// The extension of a file name, as [`extension_of`] defines it.
pub fn extension(file_name: &str) -> (found: Option<String>)
    ensures
        match found {
            Some(text) => extension_of(file_name@) == Some(text@),
            None => extension_of(file_name@) is None,
        },
{
    let len = file_name.unicode_len();
    let mut i: usize = len;
    assert(file_name@.take(i as int) =~= file_name@);
    while i > 0
        invariant
            i <= len,
            len == file_name@.len(),
            last_dot(file_name@) == last_dot(file_name@.take(i as int)),
        decreases i,
    {
        i -= 1;
        let ghost prefix = file_name@.take(i + 1);
        assert(prefix.last() == file_name@[i as int]);
        assert(prefix.drop_last() =~= file_name@.take(i as int));
        if file_name.get_char(i) == '.' {
            if i == 0 {
                return None;
            }
            let tail = file_name.substring_char(i + 1, len);
            assert(tail@ =~= file_name@.skip(i + 1));
            return Some(String::from_str(tail));
        }
    }
    None
}

/// The file name less its first character.
pub fn filename_without_leading_dot(file_name: &str) -> (rest: String)
    requires
        file_name@.len() > 0,
    ensures
        rest@ == file_name@.drop_first(),
{
    let len = file_name.unicode_len();
    let tail = file_name.substring_char(1, len);
    assert(tail@ =~= file_name@.drop_first());
    String::from_str(tail)
}

/// The attribute of an entry called `name`, which is a folder or a file.
pub open spec fn attr_of(config: EntryConfigView, name: Seq<char>, is_dir: bool) -> AttrView {
    if is_dir {
        folder_attr_alias(config, name)
    } else {
        file_attr_alias(config, lookup_key(name))
    }
}

/// Glyph and category of the entry whose last path component is
/// `file_name`.
///
/// A folder is looked up by its name. A file is looked up by its extension;
/// one without an extension by its name less the first character.
pub fn get_attr(config: &EntryConfig, file_name: &str, is_dir: bool) -> (attr: Attr)
    requires
        is_dir ==> config@.folders.contains_key("folder"@),
        !is_dir ==> config@.files.contains_key("file"@) && file_name@.len() > 0,
    ensures
        attr@ == attr_of(config@, file_name@, is_dir),
{
    if is_dir {
        get_folder_attr_alias(config, file_name)
    } else {
        match extension(file_name) {
            Some(found) => get_file_attr_alias(config, found.as_str()),
            None => {
                let default = filename_without_leading_dot(file_name);
                get_file_attr_alias(config, default.as_str())
            },
        }
    }
}

/// The colour in which a category is written: the palette colour of what
/// the table names for it, grey where the table names nothing.
pub open spec fn palette_color(colors: Map<ColorType, RealColor>, category: ColorType) -> ColorWrapper {
    let shade = if colors.contains_key(category) {
        colors[category]
    } else {
        RealColor::Grey
    };
    match shade {
        RealColor::Yellow => ColorWrapper::Yellow,
        RealColor::Green => ColorWrapper::Green,
        RealColor::Blue => ColorWrapper::Blue,
        RealColor::Red => ColorWrapper::Red,
        RealColor::Cyan => ColorWrapper::Cyan,
        RealColor::Magenta => ColorWrapper::Magenta,
        RealColor::Grey => ColorWrapper::AnsiValue(102),
        RealColor::White => ColorWrapper::AnsiValue(16),
        RealColor::Black => ColorWrapper::AnsiValue(231),
    }
}

/// The terminal colour for a category.
pub fn color_for(config: &EntryConfig, color: &ColorType) -> (found: ColorWrapper)
    ensures
        found == palette_color(config@.colors, *color),
{
    paint(&config.colors, color)
}

/// The terminal colour that a colour table gives a category.
pub(crate) fn paint(colors: &ColorMap, color: &ColorType) -> (found: ColorWrapper)
    ensures
        found == palette_color(colors@, *color),
{
    let shade = match colors.get(color) {
        Some(named) => named,
        None => RealColor::Grey,
    };
    match shade {
        RealColor::Yellow => ColorWrapper::Yellow,
        RealColor::Green => ColorWrapper::Green,
        RealColor::Blue => ColorWrapper::Blue,
        RealColor::Red => ColorWrapper::Red,
        RealColor::Cyan => ColorWrapper::Cyan,
        RealColor::Magenta => ColorWrapper::Magenta,
        RealColor::Grey => ColorWrapper::AnsiValue(ansi_rgb(2, 2, 2)),
        RealColor::White => ColorWrapper::AnsiValue(ansi_rgb(0, 0, 0)),
        RealColor::Black => ColorWrapper::AnsiValue(ansi_rgb(5, 5, 5)),
    }
}

/// One entry of a listing: its path as it is shown, the last component of
/// the path, and the glyph and category found for it.
#[derive(Debug)]
pub struct Entry {
    pub path: String,
    pub name: String,
    pub attr: Attr,
}

/// An [`Entry`] as plain values.
pub struct EntryView {
    pub path: Seq<char>,
    pub name: Seq<char>,
    pub attr: AttrView,
}

impl View for Entry {
    type V = EntryView;

    open spec fn view(&self) -> EntryView {
        EntryView { path: self.path@, name: self.name@, attr: self.attr@ }
    }
}

impl Clone for Entry {
    fn clone(&self) -> (copy: Entry)
        ensures
            copy@ == self@,
    {
        Entry { path: self.path.clone(), name: self.name.clone(), attr: self.attr.clone() }
    }
}

/// The number of extended grapheme clusters into which Unicode's rules
/// for text segmentation divide `text`.
pub uninterp spec fn grapheme_count(text: Seq<char>) -> nat;

/// Walks `unicode_segmentation`'s iterator over the extended grapheme
/// clusters of `s` and counts its items.
#[verifier::external_body]
fn count_graphemes(s: &str) -> (n: usize)
    ensures
        n == grapheme_count(s@),
{
    s.graphemes(true).count()
}

/// The width of a text on the terminal, counted in grapheme clusters.
///
/// Every cluster counts as one, whatever it holds: a control sequence that
/// the terminal will not show is counted character by character.
pub fn strlen(s: &String) -> (n: usize)
    ensures
        n == grapheme_count(s@),
{
    count_graphemes(s.as_str())
}

/// A width as a machine word holds it: `n`, or the largest word where `n`
/// is beyond it.
pub open spec fn clipped(n: nat) -> nat {
    if n <= usize::MAX {
        n
    } else {
        usize::MAX as nat
    }
}

/// `n` blanks.
pub open spec fn spaces(n: nat) -> Seq<char> {
    Seq::new(n, |i: int| ' ')
}

/// `name`, followed by as many blanks as it takes to fill `target`
/// clusters; a name that is longer stays as it is.
pub open spec fn padded(name: Seq<char>, target: int) -> Seq<char> {
    let used = grapheme_count(name);
    if used < target {
        name + spaces((target - used) as nat)
    } else {
        name
    }
}

/// The cell text for a name: glyph, a blank, the colour's escape sequence,
/// the name padded to `width - 2` clusters, the reset sequence.
pub open spec fn cell_text(icon: Seq<char>, shade: ColorWrapper, name: Seq<char>, width: usize) -> Seq<
    char,
> {
    icon + seq![' '] + fg_escape(shade.palette_index()) + padded(name, width - 2)
        + fg_reset_escape()
}

/// Appends to `out` the blanks that pad a name of `used` clusters to
/// `target`.
fn pad(out: &mut String, used: usize, target: usize)
    ensures
        final(out)@ == old(out)@ + (if used < target {
            spaces((target - used) as nat)
        } else {
            Seq::<char>::empty()
        }),
{
    proof {
        reveal_strlit(" ");
    }
    let mut i: usize = used;
    assert(out@ =~= old(out)@ + spaces(0));
    while i < target
        invariant
            used <= i,
            used < target ==> i <= target,
            used >= target ==> i == used,
            out@ == old(out)@ + spaces((i - used) as nat),
            " "@ == seq![' '],
        decreases target - i,
    {
        out.append(" ");
        assert(spaces((i - used) as nat) + seq![' '] =~= spaces((i + 1 - used) as nat));
        assert(out@ =~= old(out)@ + spaces((i + 1 - used) as nat));
        i += 1;
    }
    assert(spaces(0) =~= Seq::<char>::empty());
}

/// Writes the cell text for `name`.
pub(crate) fn write_cell(colors: &ColorMap, width: usize, attr: &Attr, name: &String) -> (out:
    String)
    ensures
        out@ == cell_text(attr@.icon, palette_color(colors@, attr@.color), name@, width),
{
    proof {
        reveal_strlit(" ");
        assert(" "@ =~= seq![' ']);
    }
    let mut out = attr.icon.clone();
    out.append(" ");
    let start = fg_sequence(paint(colors, &attr.color));
    out.append(start.as_str());
    out.append(name.as_str());
    let used = strlen(name);
    let target = if width >= 2 {
        width - 2
    } else {
        0
    };
    pad(&mut out, used, target);
    let reset = fg_reset_sequence();
    out.append(reset.as_str());
    proof {
        let shade = palette_color(colors@, attr@.color);
        assert(padded(name@, width - 2) =~= name@ + (if used < target {
            spaces((target - used) as nat)
        } else {
            Seq::<char>::empty()
        }));
        assert(out@ =~= cell_text(attr@.icon, shade, name@, width));
    }
    out
}

/// `count + overhead`, or the largest machine word where the sum is
/// beyond it.
pub(crate) fn width_of(count: usize, overhead: usize) -> (width: usize)
    ensures
        width == clipped((count + overhead) as nat),
{
    if count > usize::MAX - overhead {
        usize::MAX
    } else {
        count + overhead
    }
}

/// A way of writing one entry into a cell, and of saying beforehand how
/// wide the cell will have to be.
pub trait Formatter {
    /// The text that `format` writes.
    spec fn spec_format(&self, config: EntryConfigView, entry: EntryView) -> Seq<char>;

    /// The width that `predict` gives.
    spec fn spec_predict(&self, entry: EntryView) -> nat;

    /// The entry as the text of a cell of width `config.width`.
    fn format(&self, config: &EntryConfig, entry: &Entry) -> (out: String)
        ensures
            out@ == self.spec_format(config@, entry@),
    ;

    /// The width that a column needs to hold the entry.
    fn predict(&self, entry: &Entry) -> (width: usize)
        ensures
            width == self.spec_predict(entry@),
    ;
}

/// Writing an entry twice gives the same text: what `format` returns
/// depends on what the configuration and the entry hold and on nothing
/// else.
pub proof fn lemma_format_is_repeatable<F: Formatter>(
    formatter: &F,
    config: EntryConfig,
    entry: Entry,
    again_config: EntryConfig,
    again_entry: Entry,
    first: String,
    second: String,
)
    requires
        config@ == again_config@,
        entry@ == again_entry@,
        first@ == formatter.spec_format(config@, entry@),
        second@ == formatter.spec_format(again_config@, again_entry@),
    ensures
        first@ == second@,
{
}

/// Shows the whole path: glyph, a blank, then the coloured path.
#[derive(Debug)]
pub struct LongFormat;

impl Formatter for LongFormat {
    open spec fn spec_format(&self, config: EntryConfigView, entry: EntryView) -> Seq<char> {
        cell_text(
            entry.attr.icon,
            palette_color(config.colors, entry.attr.color),
            entry.path,
            config.width,
        )
    }

    open spec fn spec_predict(&self, entry: EntryView) -> nat {
        clipped(grapheme_count(entry.path) + 2)
    }

    fn format(&self, config: &EntryConfig, entry: &Entry) -> (out: String) {
        write_cell(&config.colors, config.width, &entry.attr, &entry.path)
    }

    fn predict(&self, entry: &Entry) -> (width: usize) {
        width_of(strlen(&entry.path), 2)
    }
}

/// Shows the last component of the path: glyph, a blank, then the coloured
/// name.
#[derive(Debug)]
pub struct ShortFormat;

/// The name that the short form shows.
pub fn short_name(l: &Entry) -> (name: String)
    ensures
        name@ == l@.name,
{
    l.name.clone()
}

impl Formatter for ShortFormat {
    open spec fn spec_format(&self, config: EntryConfigView, entry: EntryView) -> Seq<char> {
        cell_text(
            entry.attr.icon,
            palette_color(config.colors, entry.attr.color),
            entry.name,
            config.width,
        )
    }

    open spec fn spec_predict(&self, entry: EntryView) -> nat {
        clipped(grapheme_count(entry.name) + 3)
    }

    fn format(&self, config: &EntryConfig, entry: &Entry) -> (out: String) {
        let name = short_name(entry);
        write_cell(&config.colors, config.width, &entry.attr, &name)
    }

    fn predict(&self, entry: &Entry) -> (width: usize) {
        width_of(strlen(&short_name(entry)), 3)
    }
}

} // verus!
