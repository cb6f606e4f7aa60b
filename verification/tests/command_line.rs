use velogos::chart::PlotType;
use velogos::command_line::{
    check_plot_type, parse_long_plot, parse_one_option, parse_three_or_more_options,
    parse_two_options, GameMode,
};

fn args(list: &[&str]) -> Vec<String> {
    let mut out = vec![String::from("velogos")];
    out.extend(list.iter().map(|a| a.to_string()));
    out
}

#[test]
fn one_option_flags() {
    let o = parse_one_option(&args(&["--help"])).unwrap();
    assert!(matches!(o.mode, GameMode::HELP));
    let o = parse_one_option(&args(&["--stats"])).unwrap();
    assert!(matches!(o.mode, GameMode::STATS));
    let o = parse_one_option(&args(&["--endless"])).unwrap();
    assert!(matches!(o.mode, GameMode::ENDLESS));
    assert!(parse_one_option(&args(&["--bogus"])).is_none());
    assert!(parse_one_option(&args(&[])).is_none());
}

#[test]
fn two_options_waveforms_and_file() {
    let o = parse_two_options(&args(&["--plot", "sin"])).unwrap();
    assert!(matches!(o.mode, GameMode::PLOT));
    assert!(matches!(o.plot_data.unwrap().plot_type, PlotType::Sin));

    let o = parse_two_options(&args(&["--plot", "square"])).unwrap();
    assert!(matches!(o.plot_data.unwrap().plot_type, PlotType::Square));

    let o = parse_two_options(&args(&["--file", "lesson.txt"])).unwrap();
    assert!(matches!(o.mode, GameMode::LESSON));
    assert_eq!(o.file.unwrap(), "lesson.txt");

    assert!(parse_two_options(&args(&["--plot", "wpm"])).is_none());
    assert!(parse_two_options(&args(&["--bogus", "x"])).is_none());
}

#[test]
fn long_plot_selects_type() {
    let o = parse_long_plot(&args(&["--plot", "wpm", "all"])).unwrap();
    let pd = o.plot_data.unwrap();
    assert!(matches!(pd.plot_type, PlotType::AllWpm));
    assert!(pd.letter.is_none());

    let o = parse_long_plot(&args(&["--plot", "accuracy", "q"])).unwrap();
    let pd = o.plot_data.unwrap();
    assert!(matches!(pd.plot_type, PlotType::LetterAcc));
    assert_eq!(pd.letter.unwrap(), "q");

    assert!(parse_long_plot(&args(&["--plot", "speed", "all"])).is_none());
    assert!(parse_long_plot(&args(&["--plot", "wpm", "qq"])).is_none());
}

#[test]
fn three_or_more_combines_mode_and_file() {
    let o = parse_three_or_more_options(&args(&["--endless", "--file", "f.txt"])).unwrap();
    assert!(matches!(o.mode, GameMode::ENDLESS));
    assert_eq!(o.file.unwrap(), "f.txt");
    assert!(o.plot_data.is_none());

    let o = parse_three_or_more_options(&args(&["--plot", "wpm", "z"])).unwrap();
    assert!(matches!(o.mode, GameMode::PLOT));

    assert!(parse_three_or_more_options(&args(&["--endless"])).is_none());
    assert!(parse_three_or_more_options(&args(&["--bogus", "--file", "f"])).is_none());
}

#[test]
fn plot_type_targets() {
    assert!(check_plot_type(String::from("all")));
    assert!(check_plot_type(String::from("q")));
    assert!(!check_plot_type(String::from("Q")));
    assert!(!check_plot_type(String::from("qq")));
    assert!(!check_plot_type(String::from("")));
}
