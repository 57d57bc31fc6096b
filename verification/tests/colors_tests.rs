use colorls::colors::{ColorMap, ColorType, RealColor};

#[test]
fn color_type_from_every_name() {
    let all = [
        ("unrecognized_file", ColorType::UnrecognizedFile),
        ("recognized_file", ColorType::RecognizedFile),
        ("dir", ColorType::Dir),
        ("dead_link", ColorType::DeadLink),
        ("link", ColorType::Link),
        ("write", ColorType::Write),
        ("read", ColorType::Read),
        ("exec", ColorType::Exec),
        ("no_access", ColorType::NoAccess),
        ("day_old", ColorType::DayOld),
        ("hour_old", ColorType::HourOld),
        ("no_modifier", ColorType::NoModifier),
        ("report", ColorType::Report),
        ("user", ColorType::User),
        ("tree", ColorType::Tree),
        ("empty", ColorType::Empty),
        ("normal", ColorType::Normal),
    ];
    for (name, category) in all {
        assert_eq!(Some(category), ColorType::from_name(name));
    }
}

#[test]
fn color_type_from_unknown_name() {
    assert_eq!(None, ColorType::from_name("Dir"));
    assert_eq!(None, ColorType::from_name(""));
    assert_eq!(None, ColorType::from_name("dir "));
    assert_eq!(None, ColorType::from_name("yellow"));
}

#[test]
fn real_color_from_every_name() {
    let all = [
        ("yellow", RealColor::Yellow),
        ("green", RealColor::Green),
        ("blue", RealColor::Blue),
        ("red", RealColor::Red),
        ("cyan", RealColor::Cyan),
        ("magenta", RealColor::Magenta),
        ("grey", RealColor::Grey),
        ("white", RealColor::White),
        ("black", RealColor::Black),
    ];
    for (name, shade) in all {
        assert_eq!(Some(shade), RealColor::from_name(name));
    }
}

#[test]
fn real_color_from_unknown_name() {
    assert_eq!(None, RealColor::from_name("gray"));
    assert_eq!(None, RealColor::from_name("dir"));
    assert_eq!(None, RealColor::from_name(""));
}

#[test]
fn color_map_later_entry_shadows_earlier() {
    let mut map = ColorMap::new();
    assert_eq!(None, map.get(&ColorType::Dir));
    map.insert(ColorType::Dir, RealColor::Blue);
    map.insert(ColorType::Link, RealColor::Cyan);
    map.insert(ColorType::Dir, RealColor::Red);
    assert_eq!(Some(RealColor::Red), map.get(&ColorType::Dir));
    assert_eq!(Some(RealColor::Cyan), map.get(&ColorType::Link));
    assert_eq!(None, map.get(&ColorType::Tree));
    assert_eq!(Some(RealColor::Red), map.clone().get(&ColorType::Dir));
}
