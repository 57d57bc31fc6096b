use colorls::colors::{ColorMap, ColorType, RealColor};
use colorls::formatter::{
    color_for, extension, filename_without_leading_dot, get_attr, get_file_attr,
    get_file_attr_alias, get_folder_attr, get_folder_attr_alias, short_name, Attr, ConfigError,
    Entry, EntryConfig, Formatter, LongFormat, ShortFormat,
};
use colorls::options::Options;
use colorls::tabulator::{
    format_as_rows, is_valid_as_rows, max_width, predict_column_setup, BinsearchTabulator,
    Config, EntryOrder, NaiveTabulator, PlanningTabulator, Tabulator,
};

fn table(pairs: &[(&str, &str)]) -> Options {
    let mut t = Options::new();
    for (k, v) in pairs {
        t.insert(k.to_string(), v.to_string());
    }
    t
}

fn entry_config(width: usize) -> EntryConfig {
    let mut colors = ColorMap::new();
    colors.insert(ColorType::RecognizedFile, RealColor::Yellow);
    colors.insert(ColorType::Dir, RealColor::Blue);
    EntryConfig {
        files: table(&[("go", "G"), ("txt", "T"), ("file", "F"), ("jpg", "IMG"), ("bashrc", "B")]),
        file_aliases: table(&[("jpeg", "jpg")]),
        folders: table(&[("folder", "D"), ("src", "S")]),
        folder_aliases: table(&[("source", "src")]),
        colors,
        width,
    }
}

fn entry(config: &EntryConfig, dir: &str, name: &str, is_dir: bool) -> Entry {
    Entry {
        path: format!("{}/{}", dir, name),
        name: name.to_string(),
        attr: get_attr(config, name, is_dir),
    }
}

fn short_config(max_width: usize, order: EntryOrder) -> Config<ShortFormat> {
    Config { entry: entry_config(max_width), max_width, formatter: ShortFormat, entry_order: order }
}

fn long_config(max_width: usize, order: EntryOrder) -> Config<LongFormat> {
    Config { entry: entry_config(max_width), max_width, formatter: LongFormat, entry_order: order }
}

fn three(config: &EntryConfig) -> Vec<Entry> {
    vec![
        entry(config, ".", "a.go", false),
        entry(config, ".", "b.txt", false),
        entry(config, ".", "verylongname.md", false),
    ]
}

const YELLOW: &str = "\x1b[38;5;3m";
const BLUE: &str = "\x1b[38;5;4m";
const GREY: &str = "\x1b[38;5;102m";
const RESET: &str = "\x1b[39m";

fn short_cell(icon: &str, color: &str, name: &str, width: usize) -> String {
    format!("{} {}{:<w$}{}", icon, color, name, RESET, w = width - 2)
}

#[test]
fn alias_resolves_to_the_glyph_of_its_target() {
    let config = EntryConfig {
        files: table(&[("jpg", "IMG"), ("file", "F")]),
        file_aliases: table(&[("jpeg", "jpg")]),
        folders: table(&[("folder", "D")]),
        folder_aliases: Options::new(),
        colors: ColorMap::new(),
        width: 0,
    };
    let attr = get_attr(&config, "photo.jpeg", false);
    assert_eq!("IMG", attr.icon);
    assert_eq!(ColorType::RecognizedFile, attr.color);
}

#[test]
fn file_attr_by_extension_and_fallback() {
    let config = entry_config(0);
    let known = get_attr(&config, "main.go", false);
    assert_eq!(("G", ColorType::RecognizedFile), (known.icon.as_str(), known.color));
    let unknown = get_attr(&config, "notes.md", false);
    assert_eq!(("F", ColorType::UnrecognizedFile), (unknown.icon.as_str(), unknown.color));
    let last = get_attr(&config, "archive.tar.txt", false);
    assert_eq!(("T", ColorType::RecognizedFile), (last.icon.as_str(), last.color));
}

#[test]
fn hidden_file_is_looked_up_by_its_name_without_the_dot() {
    let config = entry_config(0);
    let attr = get_attr(&config, ".bashrc", false);
    assert_eq!(("B", ColorType::RecognizedFile), (attr.icon.as_str(), attr.color));
    let other = get_attr(&config, ".profile", false);
    assert_eq!(("F", ColorType::UnrecognizedFile), (other.icon.as_str(), other.color));
    // a hidden file with an extension goes by the extension
    let both = get_attr(&config, ".notes.txt", false);
    assert_eq!(("T", ColorType::RecognizedFile), (both.icon.as_str(), both.color));
}

#[test]
fn file_without_extension_loses_its_first_character() {
    let mut config = entry_config(0);
    config.files.insert("akefile".to_string(), "M".to_string());
    let attr = get_attr(&config, "Makefile", false);
    assert_eq!(("M", ColorType::RecognizedFile), (attr.icon.as_str(), attr.color));
}

#[test]
fn folder_attr_by_name_alias_and_fallback() {
    let config = entry_config(0);
    let known = get_attr(&config, "src", true);
    assert_eq!(("S", ColorType::Dir), (known.icon.as_str(), known.color));
    let aliased = get_attr(&config, "source", true);
    assert_eq!(("S", ColorType::Dir), (aliased.icon.as_str(), aliased.color));
    let unknown = get_attr(&config, "target", true);
    assert_eq!(("D", ColorType::Dir), (unknown.icon.as_str(), unknown.color));
    // a folder is looked up by its whole name, not by an extension
    let dotted = get_attr(&config, "old.src", true);
    assert_eq!(("D", ColorType::Dir), (dotted.icon.as_str(), dotted.color));
}

#[test]
fn attr_lookups_one_by_one() {
    let config = entry_config(0);
    assert_eq!("G", get_file_attr(&config, "go").icon);
    assert_eq!("F", get_file_attr(&config, "jpeg").icon);
    assert_eq!("IMG", get_file_attr_alias(&config, "jpeg").icon);
    assert_eq!("S", get_folder_attr(&config, "src").icon);
    assert_eq!("D", get_folder_attr(&config, "source").icon);
    assert_eq!("S", get_folder_attr_alias(&config, "source").icon);
}

#[test]
fn alias_to_an_unknown_key_falls_back() {
    let mut config = entry_config(0);
    config.file_aliases.insert("x".to_string(), "nowhere".to_string());
    let attr = get_file_attr_alias(&config, "x");
    assert_eq!(("F", ColorType::UnrecognizedFile), (attr.icon.as_str(), attr.color));
}

#[test]
fn extension_follows_the_last_dot() {
    assert_eq!(Some("go".to_string()), extension("a.go"));
    assert_eq!(Some("gz".to_string()), extension("a.tar.gz"));
    assert_eq!(None, extension("Makefile"));
    assert_eq!(None, extension(".bashrc"));
    assert_eq!(Some("txt".to_string()), extension(".notes.txt"));
    assert_eq!(Some("".to_string()), extension("trailing."));
    assert_eq!(None, extension(""));
    assert_eq!(Some("\u{e9}".to_string()), extension("caf\u{e9}.\u{e9}"));
}

#[test]
fn filename_without_leading_dot_drops_one_character() {
    assert_eq!("bashrc", filename_without_leading_dot(".bashrc"));
    assert_eq!(".hidden", filename_without_leading_dot("..hidden"));
    assert_eq!("akefile", filename_without_leading_dot("Makefile"));
    assert_eq!("", filename_without_leading_dot("x"));
    assert_eq!("t\u{e9}", filename_without_leading_dot("\u{e9}t\u{e9}"));
}

#[test]
fn configuration_without_fallback_glyphs_is_refused() {
    let mut config = entry_config(0);
    assert_eq!(Ok(()), config.check());
    config.folders = table(&[("src", "S")]);
    assert_eq!(Err(ConfigError::MissingFolderFallback), config.check());
    config.files = table(&[("go", "G")]);
    assert_eq!(Err(ConfigError::MissingFileFallback), config.check());
}

#[test]
fn with_width_keeps_the_tables() {
    let config = entry_config(7);
    let wider = config.with_width(30);
    assert_eq!(30, wider.width);
    assert_eq!("G", get_attr(&wider, "a.go", false).icon);
    assert_eq!("S", get_attr(&wider, "source", true).icon);
    assert_eq!(color_for(&config, &ColorType::Dir), color_for(&wider, &ColorType::Dir));
    let copy = config.clone();
    assert_eq!(7, copy.width);
    assert_eq!("IMG", get_attr(&copy, "x.jpeg", false).icon);
}

#[test]
fn options_later_entry_shadows_earlier() {
    let mut t = Options::new();
    assert_eq!(None, t.get("a"));
    assert!(!t.contains_key("a"));
    t.insert("a".to_string(), "1".to_string());
    t.insert("b".to_string(), "2".to_string());
    t.insert("a".to_string(), "3".to_string());
    assert_eq!(Some(&"3".to_string()), t.get("a"));
    assert_eq!(Some(&"2".to_string()), t.get("b"));
    assert!(t.contains_key("b"));
    assert_eq!(None, t.get("c"));
    let copy = t.clone();
    assert_eq!(Some(&"3".to_string()), copy.get("a"));
}

#[test]
fn short_format_pads_the_name() {
    let config = entry_config(10);
    let e = entry(&config, "/tmp", "a.go", false);
    assert_eq!("a.go", short_name(&e));
    assert_eq!(7, ShortFormat.predict(&e));
    assert_eq!(
        format!("G {}a.go    {}", YELLOW, RESET),
        ShortFormat.format(&config, &e)
    );
}

#[test]
fn long_format_shows_the_path_after_a_blank() {
    let config = entry_config(14);
    let e = entry(&config, "/tmp", "a.go", false);
    assert_eq!(11, LongFormat.predict(&e));
    assert_eq!(
        format!("G {}/tmp/a.go   {}", YELLOW, RESET),
        LongFormat.format(&config, &e)
    );
}

#[test]
fn format_twice_gives_the_same_text() {
    let config = entry_config(12);
    let e = entry(&config, "/tmp", "b.txt", false);
    assert_eq!(ShortFormat.format(&config, &e), ShortFormat.format(&config, &e));
    assert_eq!(LongFormat.format(&config, &e), LongFormat.format(&config, &e));
    assert_eq!(ShortFormat.format(&config.clone(), &e.clone()), ShortFormat.format(&config, &e));
}

#[test]
fn format_does_not_cut_a_name_that_is_too_long() {
    let config = entry_config(5);
    let e = entry(&config, ".", "verylongname.md", false);
    assert_eq!(
        format!("F {}verylongname.md{}", GREY, RESET),
        ShortFormat.format(&config, &e)
    );
    let narrow = entry_config(0);
    assert_eq!(
        format!("F {}verylongname.md{}", GREY, RESET),
        ShortFormat.format(&narrow, &e)
    );
    let exact = entry_config(17);
    assert_eq!(
        format!("F {}verylongname.md{}", GREY, RESET),
        ShortFormat.format(&exact, &e)
    );
}

#[test]
fn format_pads_by_clusters() {
    let config = entry_config(8);
    // five characters, four clusters
    let e = Entry {
        path: "./a\u{310}bcd".to_string(),
        name: "a\u{310}bcd".to_string(),
        attr: Attr { icon: "I".to_string(), color: ColorType::Dir },
    };
    assert_eq!(7, ShortFormat.predict(&e));
    assert_eq!(
        format!("I {}a\u{310}bcd  {}", BLUE, RESET),
        ShortFormat.format(&config, &e)
    );
}

#[test]
fn color_for_every_colour() {
    let mut config = entry_config(0);
    let all = [
        (RealColor::Yellow, "\x1b[38;5;3m"),
        (RealColor::Green, "\x1b[38;5;2m"),
        (RealColor::Blue, "\x1b[38;5;4m"),
        (RealColor::Red, "\x1b[38;5;1m"),
        (RealColor::Cyan, "\x1b[38;5;6m"),
        (RealColor::Magenta, "\x1b[38;5;5m"),
        (RealColor::Grey, "\x1b[38;5;102m"),
        (RealColor::White, "\x1b[38;5;16m"),
        (RealColor::Black, "\x1b[38;5;231m"),
    ];
    for (shade, start) in all {
        config.colors.insert(ColorType::Link, shade);
        let e = Entry {
            path: "p".to_string(),
            name: "n".to_string(),
            attr: Attr { icon: "i".to_string(), color: ColorType::Link },
        };
        assert_eq!(format!("i {}n{}", start, RESET), ShortFormat.format(&config, &e));
    }
}

#[test]
fn category_without_a_colour_is_grey() {
    let config = entry_config(0);
    assert_eq!(color_for(&config, &ColorType::Tree), {
        let mut c = entry_config(0);
        c.colors.insert(ColorType::Tree, RealColor::Grey);
        color_for(&c, &ColorType::Tree)
    });
}

#[test]
fn planning_end_to_end_takes_one_column_in_a_narrow_terminal() {
    for order in [EntryOrder::Horizontal, EntryOrder::Vertical] {
        let config = short_config(20, order);
        let names = three(&config.entry);
        let grid = PlanningTabulator.tabulate(&config, names);
        assert_eq!(
            vec![
                vec![short_cell("G", YELLOW, "a.go", 18)],
                vec![short_cell("T", YELLOW, "b.txt", 18)],
                vec![short_cell("F", GREY, "verylongname.md", 18)],
            ],
            grid
        );
    }
}

#[test]
fn planning_end_to_end_takes_all_columns_that_fit() {
    for order in [EntryOrder::Horizontal, EntryOrder::Vertical] {
        let config = short_config(40, order);
        let names = three(&config.entry);
        let grid = PlanningTabulator.tabulate(&config, names);
        assert_eq!(
            vec![vec![
                short_cell("G", YELLOW, "a.go", 7),
                short_cell("T", YELLOW, "b.txt", 8),
                short_cell("F", GREY, "verylongname.md", 18),
            ]],
            grid
        );
    }
}

#[test]
fn planning_rejects_columns_that_fill_the_terminal_exactly() {
    // widths 7, 8 and 18 sum to 33
    let exact = short_config(33, EntryOrder::Horizontal);
    let grid = PlanningTabulator.tabulate(&exact, three(&exact.entry));
    assert_eq!(2, grid.len());
    assert_eq!(2, grid[0].len());
    let roomy = short_config(34, EntryOrder::Horizontal);
    let grid = PlanningTabulator.tabulate(&roomy, three(&roomy.entry));
    assert_eq!(1, grid.len());
}

fn four(config: &EntryConfig) -> Vec<Entry> {
    vec![
        entry(config, ".", "aa", false),
        entry(config, ".", "bb", false),
        entry(config, ".", "cc", false),
        entry(config, ".", "dd", false),
    ]
}

#[test]
fn planning_places_entries_by_order() {
    let across = short_config(16, EntryOrder::Horizontal);
    let grid = PlanningTabulator.tabulate(&across, four(&across.entry));
    let cell = |name: &str| short_cell("F", GREY, name, 5);
    assert_eq!(vec![vec![cell("aa"), cell("bb"), cell("cc")], vec![cell("dd")]], grid);
    let down = short_config(16, EntryOrder::Vertical);
    let grid = PlanningTabulator.tabulate(&down, four(&down.entry));
    assert_eq!(vec![vec![cell("aa"), cell("cc")], vec![cell("bb"), cell("dd")]], grid);
}

#[test]
fn planning_tries_the_lower_bound_itself() {
    // four entries of width 5 on 12 columns: the largest and the smallest
    // number of columns to try are both two, and two columns fit
    let config = short_config(12, EntryOrder::Horizontal);
    let cell = |name: &str| short_cell("F", GREY, name, 5);
    let expected = vec![vec![cell("aa"), cell("bb")], vec![cell("cc"), cell("dd")]];
    assert_eq!(expected, PlanningTabulator.tabulate(&config, four(&config.entry)));
    assert_eq!(expected, BinsearchTabulator.tabulate(&config, four(&config.entry)));
}

#[test]
fn planning_without_candidates_takes_one_column() {
    // entries of width 3 on 8 columns: at most one column of the narrowest
    // kind, at least two columns for the widest entry
    let config = long_config(8, EntryOrder::Horizontal);
    let names: Vec<Entry> = ["a", "b", "c"]
        .iter()
        .map(|n| Entry {
            path: n.to_string(),
            name: n.to_string(),
            attr: Attr { icon: "i".to_string(), color: ColorType::Dir },
        })
        .collect();
    assert_eq!(3, max_width(&config, &names));
    assert_eq!(3, PlanningTabulator.tabulate(&config, names.clone()).len());
    assert_eq!(3, BinsearchTabulator.tabulate(&config, names).len());
}

#[test]
fn single_entry_wider_than_the_terminal_gets_one_column() {
    for order in [EntryOrder::Horizontal, EntryOrder::Vertical] {
        let config = short_config(10, order);
        let wide = vec![entry(&config.entry, ".", "verylongname.md", false)];
        let expected = vec![vec![short_cell("F", GREY, "verylongname.md", 18)]];
        assert_eq!(expected, PlanningTabulator.tabulate(&config, wide.clone()));
        assert_eq!(expected, BinsearchTabulator.tabulate(&config, wide.clone()));
        assert_eq!(expected, NaiveTabulator.tabulate(&config, wide));
    }
}

#[test]
fn no_entries_give_an_empty_grid() {
    for order in [EntryOrder::Horizontal, EntryOrder::Vertical] {
        for max_width in [0usize, 1, 4, 5, 80, usize::MAX] {
            let config = short_config(max_width, order);
            let empty: Vec<Vec<String>> = Vec::new();
            assert_eq!(empty, PlanningTabulator.tabulate(&config, Vec::new()));
            assert_eq!(empty, BinsearchTabulator.tabulate(&config, Vec::new()));
            assert_eq!(empty, NaiveTabulator.tabulate(&config, Vec::new()));
        }
    }
}

#[test]
fn terminal_of_no_width_still_gives_one_column() {
    let config = short_config(0, EntryOrder::Horizontal);
    let names = three(&config.entry);
    assert_eq!(3, PlanningTabulator.tabulate(&config, names.clone()).len());
    assert_eq!(3, BinsearchTabulator.tabulate(&config, names.clone()).len());
    assert_eq!(3, NaiveTabulator.tabulate(&config, names).len());
}

fn many(config: &EntryConfig, n: usize) -> Vec<Entry> {
    (0..n)
        .map(|i| {
            let name = format!("{}{}.txt", "x".repeat(1 + (i * 7) % 11), i);
            entry(config, ".", &name, false)
        })
        .collect()
}

#[test]
fn binsearch_and_planning_agree_where_fitting_is_monotone() {
    for order in [EntryOrder::Horizontal, EntryOrder::Vertical] {
        for max_width in [20usize, 33, 40, 80, 81, 120, 200] {
            // entries of one width each: more columns never fit better
            let config = short_config(max_width, order);
            let names: Vec<Entry> =
                (0..23).map(|i| entry(&config.entry, ".", &format!("f{:02}.go", i), false)).collect();
            assert_eq!(
                PlanningTabulator.tabulate(&config, names.clone()),
                BinsearchTabulator.tabulate(&config, names)
            );
        }
    }
}

#[test]
fn binsearch_may_differ_where_fitting_is_not_monotone() {
    // Eight entries of which every third is wide, on 19 columns. In rows of
    // two every column gets a wide entry, in rows of three only the first
    // does: three columns fit, two do not, one does. The candidates are
    // three, two and one; the halving looks at two first, goes on towards
    // one and so never looks at three.
    let config = short_config(19, EntryOrder::Horizontal);
    let names: Vec<Entry> = (0..8)
        .map(|i| {
            let name = if i % 3 == 0 { "wwwwwww" } else { "n" };
            entry(&config.entry, ".", name, false)
        })
        .collect();
    let widths = |n_cols: usize| predict_column_setup(&config, &names, n_cols);
    assert_eq!(vec![10, 4, 4], widths(3));
    assert_eq!(vec![10, 10], widths(2));
    assert!(is_valid_as_rows(&config, &names, 3).is_some());
    assert!(is_valid_as_rows(&config, &names, 2).is_none());
    let planned = PlanningTabulator.tabulate(&config, names.clone());
    let searched = BinsearchTabulator.tabulate(&config, names);
    assert_eq!(3, planned.len());
    assert_eq!(3, planned[0].len());
    assert_eq!(8, searched.len());
}

#[test]
fn naive_divides_the_terminal_by_the_widest_entry() {
    // widest is 19: 80 / 21 = 3 columns
    let config = short_config(80, EntryOrder::Horizontal);
    let names = many(&config.entry, 10);
    assert_eq!(19, max_width(&config, &names));
    let grid = NaiveTabulator.tabulate(&config, names);
    assert_eq!(4, grid.len());
    assert_eq!(3, grid[0].len());
    assert_eq!(1, grid[3].len());
}

#[test]
fn naive_does_not_ask_whether_it_fits() {
    // two columns of 18 and 8 on 40 columns: 40 / 20 = 2, whatever the sum
    let config = short_config(40, EntryOrder::Horizontal);
    let grid = NaiveTabulator.tabulate(&config, three(&config.entry));
    assert_eq!(
        vec![
            vec![short_cell("G", YELLOW, "a.go", 18), short_cell("T", YELLOW, "b.txt", 8)],
            vec![short_cell("F", GREY, "verylongname.md", 18)],
        ],
        grid
    );
}

#[test]
fn max_width_of_nothing_is_zero() {
    let config = long_config(80, EntryOrder::Horizontal);
    assert_eq!(0, max_width(&config, &Vec::new()));
    assert_eq!(19, max_width(&config, &three(&config.entry)));
}

#[test]
fn predicted_setup_and_validity() {
    let config = short_config(27, EntryOrder::Horizontal);
    let names = three(&config.entry);
    assert_eq!(vec![18, 8], predict_column_setup(&config, &names, 2));
    assert_eq!(vec![18], predict_column_setup(&config, &names, 1));
    assert_eq!(Some(vec![18, 8]), is_valid_as_rows(&config, &names, 2));
    assert_eq!(None, is_valid_as_rows(&config, &names, 3));
    let tight = short_config(26, EntryOrder::Horizontal);
    assert_eq!(None, is_valid_as_rows(&tight, &names, 2));
}

#[test]
fn format_as_rows_writes_each_cell_for_its_column() {
    let config = long_config(80, EntryOrder::Vertical);
    let names = three(&config.entry);
    let grid = format_as_rows(&config, &names, vec![10, 20]);
    assert_eq!(
        vec![
            vec![
                format!("G {}{:<8}{}", YELLOW, "./a.go", RESET),
                format!("F {}{:<18}{}", GREY, "./verylongname.md", RESET),
            ],
            vec![format!("T {}{:<8}{}", YELLOW, "./b.txt", RESET)],
        ],
        grid
    );
    let none: Vec<Vec<String>> = Vec::new();
    assert_eq!(none, format_as_rows(&config, &names, vec![]));
    assert_eq!(none, format_as_rows(&config, &Vec::new(), vec![4, 4]));
}
