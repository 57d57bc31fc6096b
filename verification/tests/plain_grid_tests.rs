use colorls::colors::{ColorMap, ColorType, RealColor};
use colorls::formatter::Attr;
use colorls::options::Options;
use colorls::{
    as_rows, format_as_rows, is_valid, is_valid_as_rows, max_width, strlen, Action, Config, Entry,
    EntryPrinter, EntryPrinterConfig, Formatter, LongFormat, NaiveFormatter, PlanningFormatter,
    ShortFormat, Verbosity,
};

#[test]
fn lib_for_normal_string() {
    assert_eq!(6, strlen(&".local".to_string()))
}

#[test]
fn lib_for_string_with_icons() {
    assert_eq!(7, strlen(&"\u{f115}.local".to_string()))
}

#[test]
fn lib_for_string_with_weird_stuff() {
    assert_eq!(7, strlen(&"a\u{310}.local".to_string()))
}

#[test]
fn lib_for_string_with_icons_via_code() {
    assert_eq!(7, strlen(&format!("{}.local", "\u{f115}")))
}

#[test]
fn lib_for_string_with_color() {
    assert_eq!(
        20,
        strlen(&format!(
            "{color}.local{reset}",
            color = termion::color::Fg(termion::color::Red),
            reset = termion::color::Fg(termion::color::Reset)
        ))
    )
}

#[test]
fn lib_for_simple_case() {
    assert_eq!(false, is_valid(vec![vec![1, 2], vec![2, 1]], 2))
}

#[test]
fn lib_when_total_col_width_exceeds_max() {
    assert_eq!(false, is_valid(vec![vec![1, 3], vec![3, 1]], 3))
}

#[test]
fn lib_when_fits() {
    assert_eq!(true, is_valid(vec![vec![1, 2], vec![1, 1]], 4))
}

#[test]
fn plain_is_valid_is_strict() {
    assert_eq!(false, is_valid(vec![vec![1, 2], vec![2, 1]], 4));
    assert_eq!(true, is_valid(vec![vec![1, 2], vec![2, 1]], 5));
    assert_eq!(true, is_valid(vec![], 1));
    assert_eq!(false, is_valid(vec![], 0));
}

#[test]
fn as_rows_keeps_every_item() {
    assert_eq!(vec![vec![1, 2], vec![3]], as_rows(&vec![1, 2, 3], 2));
    assert_eq!(vec![vec![1, 2], vec![3, 4]], as_rows(&vec![1, 2, 3, 4], 2));
    assert_eq!(vec![vec![1, 2], vec![3, 4], vec![5]], as_rows(&vec![1, 2, 3, 4, 5], 2));
    assert_eq!(vec![vec![1, 2, 3], vec![4, 5]], as_rows(&vec![1, 2, 3, 4, 5], 3));
    assert_eq!(vec![vec![1], vec![2], vec![3]], as_rows(&vec![1, 2, 3], 1));
    assert_eq!(vec![vec![1, 2, 3]], as_rows(&vec![1, 2, 3], 4));
    assert_eq!(Vec::<Vec<i32>>::new(), as_rows(&Vec::<i32>::new(), 4));
}

#[test]
fn as_rows_breaks_as_the_horizontal_order_does() {
    for len in 0..20usize {
        let names: Vec<usize> = (0..len).collect();
        for row_cap in 1..8usize {
            assert_eq!(
                colorls::tabulator::break_lines_with(
                    colorls::tabulator::EntryOrder::Horizontal,
                    &names,
                    row_cap
                ),
                as_rows(&names, row_cap)
            );
        }
    }
}

fn config<P>(max_width: usize, printer: P) -> Config<P> {
    let mut files = Options::new();
    files.insert("file".to_string(), "F".to_string());
    let mut folders = Options::new();
    folders.insert("folder".to_string(), "D".to_string());
    let mut colors = ColorMap::new();
    colors.insert(ColorType::RecognizedFile, RealColor::Green);
    Config {
        files,
        file_aliases: Options::new(),
        folders,
        folder_aliases: Options::new(),
        colors,
        max_width,
        printer,
    }
}

fn entries(n: usize) -> Vec<Entry> {
    (0..n)
        .map(|i| Entry {
            path: format!("/d/f{:02}.go", i),
            name: format!("f{:02}.go", i),
            attr: Attr { icon: "G".to_string(), color: ColorType::RecognizedFile },
        })
        .collect()
}

const GREEN: &str = "\x1b[38;5;2m";
const RESET: &str = "\x1b[39m";

fn cell(i: usize) -> String {
    format!("G {}f{:02}.go {}", GREEN, i, RESET)
}

#[test]
fn printers_write_and_predict() {
    let c = config(80, ShortFormat);
    let e = &entries(1)[0];
    assert_eq!(9, ShortFormat.predict(e));
    assert_eq!(11, LongFormat.predict(e));
    assert_eq!(cell(0), ShortFormat.format(&c, &EntryPrinterConfig { width: 9 }, e));
    assert_eq!(
        format!("G {}/d/f00.go  {}", GREEN, RESET),
        LongFormat.format(&c, &EntryPrinterConfig { width: 13 }, e)
    );
    assert_eq!(
        format!("G {}f00.go{}", GREEN, RESET),
        ShortFormat.format(&c, &EntryPrinterConfig { width: 1 }, e)
    );
}

#[test]
fn plain_max_width_and_validity() {
    let c = config(19, ShortFormat);
    let names = entries(10);
    assert_eq!(9, max_width(&c, &names));
    assert_eq!(0, max_width(&c, &Vec::new()));
    assert_eq!(true, is_valid_as_rows(&c, &names, 2));
    assert_eq!(false, is_valid_as_rows(&c, &names, 3));
    // a row longer than the list holds all of it
    assert_eq!(false, is_valid_as_rows(&c, &names, 11));
    assert_eq!(true, is_valid_as_rows(&config(91, ShortFormat), &names, 11));
}

#[test]
fn plain_format_as_rows_gives_every_entry_a_cell() {
    let c = config(80, ShortFormat);
    let names = entries(10);
    assert_eq!(
        vec![
            vec![cell(0), cell(1), cell(2), cell(3)],
            vec![cell(4), cell(5), cell(6), cell(7)],
            vec![cell(8), cell(9)],
        ],
        format_as_rows(&c, &names, 4)
    );
    assert_eq!(vec![(0..10).map(cell).collect::<Vec<String>>()], format_as_rows(&c, &names, 11));
    let none: Vec<Vec<String>> = Vec::new();
    assert_eq!(none, format_as_rows(&c, &names, 0));
    assert_eq!(none, format_as_rows(&c, &Vec::new(), 3));
}

#[test]
fn plain_format_as_rows_takes_the_widest_of_each_column() {
    let c = config(80, ShortFormat);
    let mut names = entries(3);
    names[2].name = "longer.go".to_string();
    assert_eq!(
        vec![
            vec![
                format!("G {}f00.go    {}", GREEN, RESET),
                format!("G {}f01.go {}", GREEN, RESET),
            ],
            vec![format!("G {}longer.go {}", GREEN, RESET)],
        ],
        format_as_rows(&c, &names, 2)
    );
}

#[test]
fn planning_formatter_takes_the_longest_row_that_fits() {
    let c = config(19, ShortFormat);
    let grid = (PlanningFormatter {}).format(&c, entries(10));
    assert_eq!(5, grid.len());
    assert_eq!(vec![cell(0), cell(1)], grid[0]);
    assert_eq!(vec![cell(8), cell(9)], grid[4]);
}

#[test]
fn planning_formatter_falls_back_to_the_shortest_row() {
    let c = config(30, ShortFormat);
    let grid = (PlanningFormatter {}).format(&c, entries(10));
    assert_eq!(
        vec![
            vec![cell(0), cell(1), cell(2)],
            vec![cell(3), cell(4), cell(5)],
            vec![cell(6), cell(7), cell(8)],
            vec![cell(9)],
        ],
        grid
    );
}

#[test]
fn planning_formatter_with_fewer_entries_than_a_row_shows_them_all() {
    let c = config(19, ShortFormat);
    assert_eq!(vec![vec![cell(0)]], (PlanningFormatter {}).format(&c, entries(1)));
    let none: Vec<Vec<String>> = Vec::new();
    assert_eq!(none, (PlanningFormatter {}).format(&c, Vec::new()));
}

#[test]
fn formatters_put_one_cell_in_a_row_where_an_entry_is_too_wide() {
    let one_by_one = vec![vec![cell(0)], vec![cell(1)], vec![cell(2)]];
    for max_width in [0usize, 1, 5, 9] {
        let narrow = config(max_width, ShortFormat);
        assert_eq!(one_by_one, (PlanningFormatter {}).format(&narrow, entries(3)));
        assert_eq!(one_by_one, (NaiveFormatter {}).format(&narrow, entries(3)));
    }
}

#[test]
fn naive_formatter_divides_the_terminal() {
    let c = config(40, ShortFormat);
    let grid = (NaiveFormatter {}).format(&c, entries(10));
    assert_eq!(4, grid.len());
    assert_eq!(vec![cell(6), cell(7), cell(8)], grid[2]);
    assert_eq!(vec![cell(9)], grid[3]);
    let narrow = (NaiveFormatter {}).format(&config(10, ShortFormat), entries(10));
    assert_eq!(10, narrow.len());
    assert_eq!(vec![cell(4)], narrow[4]);
}

#[test]
fn action_holds_what_a_run_needs() {
    let action = Action {
        verbosity: Verbosity::Warn,
        directory: "/tmp".to_string(),
        config: config(80, LongFormat),
        formatter: NaiveFormatter {},
    };
    assert!(action.verbosity != Verbosity::Quiet);
    assert_eq!(Verbosity::Warn, action.verbosity);
    assert_eq!("/tmp", action.directory);
    assert_eq!(80, action.config.max_width);
}
