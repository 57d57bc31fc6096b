use colorls::formatter::strlen;
use termion::color;

#[test]
fn formatter_for_normal_string() {
    assert_eq!(6, strlen(&".local".to_string()))
}

#[test]
fn formatter_for_string_with_icons() {
    assert_eq!(7, strlen(&"\u{f115}.local".to_string()))
}

#[test]
fn formatter_for_string_with_weird_stuff() {
    assert_eq!(7, strlen(&"a\u{310}.local".to_string()))
}

#[test]
fn formatter_for_string_with_icons_via_code() {
    assert_eq!(7, strlen(&format!("{}.local", "\u{f115}")))
}

#[test]
fn formatter_for_string_with_color() {
    assert_eq!(
        20,
        strlen(&format!(
            "{color}.local{reset}",
            color = color::Fg(color::Red),
            reset = color::Fg(color::Reset)
        ))
    )
}

#[test]
fn strlen_of_empty_string_is_zero() {
    assert_eq!(0, strlen(&String::new()))
}

#[test]
fn strlen_counts_a_flag_as_one() {
    // two regional indicators make one cluster
    assert_eq!(1, strlen(&"\u{1f1f7}\u{1f1fa}".to_string()))
}

#[test]
fn strlen_counts_every_colour_sequence_character_by_character() {
    let plain = ".local".to_string();
    let red = format!("{}", color::Fg(color::Red));
    let grey = format!("{}", color::Fg(color::AnsiValue::rgb(2, 2, 2)));
    let reset = format!("{}", color::Fg(color::Reset));
    assert_eq!(9, red.chars().count());
    assert_eq!(11, grey.chars().count());
    assert_eq!(5, reset.chars().count());
    assert_eq!(
        strlen(&plain) + red.chars().count() + reset.chars().count(),
        strlen(&format!("{}{}{}", red, plain, reset))
    );
    assert_eq!(
        strlen(&plain) + grey.chars().count() + reset.chars().count(),
        strlen(&format!("{}{}{}", grey, plain, reset))
    );
}

#[test]
fn strlen_joins_a_leading_mark_to_the_colour_sequence() {
    // alone, the mark is a cluster of its own; behind the colour sequence
    // it belongs to the cluster of the sequence's last character
    let marked = "\u{310}x".to_string();
    let red = format!("{}", color::Fg(color::Red));
    let reset = format!("{}", color::Fg(color::Reset));
    assert_eq!(2, strlen(&marked));
    assert_eq!(9 + 1 + 5, strlen(&format!("{}{}{}", red, marked, reset)));
}
