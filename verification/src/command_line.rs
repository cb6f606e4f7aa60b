//! The command-line option parser.
//!
//! The program takes at most a mode flag, a plot request, and a lesson file.
//! Each `parse_*` function reads one shape of argument list and yields the
//! chosen options, or nothing when the arguments fit no known shape; the
//! caller then shows the usage line and gives up.

use vstd::prelude::*;

use crate::chart::{PlotData, PlotType};
use vstd::string::StrSliceExecFns;

verus! {

/// What the player asked the program to do.
#[derive(Debug)]
pub enum GameMode {
    HELP,
    ENDLESS,
    STATS,
    LESSON,
    PLOT,
}

/// The parsed command line: the mode, the lesson file if one was named, and
/// the plot request if one was made.
#[derive(Debug)]
pub struct GameOpts {
    pub mode: GameMode,
    pub file: Option<String>,
    pub plot_data: Option<PlotData>,
}

/// Character-wise string equality.
fn str_eq(a: &str, b: &str) -> (r: bool)
    ensures
        r == (a@ == b@),
{
    let la = a.unicode_len();
    let lb = b.unicode_len();
    if la != lb {
        proof {
            assert(a@ != b@);
        }
        return false;
    }
    let mut i: usize = 0;
    while i < la
        invariant
            i <= la,
            la == a@.len(),
            la == b@.len(),
            forall|k: int| 0 <= k < i ==> a@[k] == b@[k],
        decreases la - i,
    {
        if a.get_char(i) != b.get_char(i) {
            proof {
                assert(a@[i as int] != b@[i as int]);
            }
            return false;
        }
        i += 1;
    }
    proof {
        assert(a@ =~= b@);
    }
    true
}

/// A plot target the program accepts: the whole-alphabet key, or one
/// lowercase letter.
pub open spec fn spec_plot_type_ok(s: Seq<char>) -> bool {
    s == "all"@ || (s.len() == 1 && 'a' <= s[0] <= 'z')
}

/// Whether a plot target is acceptable: the whole-alphabet key `all`, or a
/// single letter of the alphabet.
pub fn check_plot_type(plot_type: String) -> (r: bool)
    ensures
        r == spec_plot_type_ok(plot_type@),
{
    if str_eq(plot_type.as_str(), "all") {
        return true;
    }
    let st = plot_type.as_str();
    if st.unicode_len() != 1 {
        return false;
    }
    let c = st.get_char(0);
    'a' <= c && c <= 'z'
}

/// The modes a lone flag selects.
pub open spec fn spec_one_option(arg: Seq<char>) -> Option<GameMode> {
    if arg == "--help"@ {
        Some(GameMode::HELP)
    } else if arg == "--stats"@ {
        Some(GameMode::STATS)
    } else if arg == "--endless"@ {
        Some(GameMode::ENDLESS)
    } else {
        None
    }
}

/// Read a command line of one flag: `--help`, `--stats` or `--endless`,
/// each selecting its mode with no file and no plot request.
pub fn parse_one_option(args: &Vec<String>) -> (r: Option<GameOpts>)
    ensures
        r is Some <==> args@.len() >= 2 && spec_one_option(args@[1]@) is Some,
        r matches Some(o) ==> {
            &&& Some(o.mode) == spec_one_option(args@[1]@)
            &&& o.file is None
            &&& o.plot_data is None
        },
{
    if args.len() < 2 {
        return None;
    }
    let first = &args[1];
    if str_eq(first.as_str(), "--help") {
        Some(GameOpts { mode: GameMode::HELP, file: None, plot_data: None })
    } else if str_eq(first.as_str(), "--stats") {
        Some(GameOpts { mode: GameMode::STATS, file: None, plot_data: None })
    } else if str_eq(first.as_str(), "--endless") {
        Some(GameOpts { mode: GameMode::ENDLESS, file: None, plot_data: None })
    } else {
        None
    }
}

/// Read a command line of a flag and one value: `--plot` with a waveform
/// name (`sin` or `square`), or `--file` with a lesson file. Any other flag
/// or waveform fits no shape.
pub fn parse_two_options(args: &Vec<String>) -> (r: Option<GameOpts>)
    ensures
        r is Some <==> args@.len() >= 3 && ((args@[1]@ == "--plot"@ && (args@[2]@ == "sin"@
            || args@[2]@ == "square"@)) || (args@[1]@ != "--plot"@ && args@[1]@ == "--file"@)),
        r matches Some(o) ==> (if args@[1]@ == "--plot"@ {
            &&& o.mode is PLOT
            &&& o.file is None
            &&& (o.plot_data matches Some(pd) && pd.letter is None && (if args@[2]@ == "sin"@ {
                pd.plot_type is Sin
            } else {
                pd.plot_type is Square
            }))
        } else {
            &&& o.mode is LESSON
            &&& o.plot_data is None
            &&& (o.file matches Some(f) && f@ == args@[2]@)
        }),
{
    if args.len() < 2 {
        return None;
    }
    let first = &args[1];
    let is_plot = str_eq(first.as_str(), "--plot");
    if !is_plot && !str_eq(first.as_str(), "--file") {
        return None;
    }
    if args.len() < 3 {
        return None;
    }
    let second = &args[2];
    if is_plot {
        if str_eq(second.as_str(), "sin") {
            return Some(
                GameOpts {
                    mode: GameMode::PLOT,
                    file: None,
                    plot_data: Some(PlotData { plot_type: PlotType::Sin, letter: None }),
                },
            );
        }
        if str_eq(second.as_str(), "square") {
            return Some(
                GameOpts {
                    mode: GameMode::PLOT,
                    file: None,
                    plot_data: Some(PlotData { plot_type: PlotType::Square, letter: None }),
                },
            );
        }
        return None;
    }
    Some(GameOpts { mode: GameMode::LESSON, file: Some(second.clone()), plot_data: None })
}

/// Read a plot request of the long shape: `--plot`, a measure (`wpm` or
/// `accuracy`), and a target (`all` or one letter). The measure and the
/// target together select the plot type; a letter target is carried along.
pub fn parse_long_plot(args: &Vec<String>) -> (r: Option<GameOpts>)
    requires
        args@.len() >= 4,
    ensures
        r is Some <==> spec_plot_type_ok(args@[3]@) && (args@[2]@ == "wpm"@ || args@[2]@
            == "accuracy"@),
        r matches Some(o) ==> {
            &&& o.mode is PLOT
            &&& o.file is None
            &&& (o.plot_data matches Some(pd) && (if args@[3]@ == "all"@ {
                &&& pd.letter is None
                &&& (if args@[2]@ == "wpm"@ {
                    pd.plot_type is AllWpm
                } else {
                    pd.plot_type is AllAcc
                })
            } else {
                &&& (pd.letter matches Some(l) && l@ == args@[3]@)
                &&& (if args@[2]@ == "wpm"@ {
                    pd.plot_type is LetterWpm
                } else {
                    pd.plot_type is LetterAcc
                })
            }))
        },
{
    if !check_plot_type(args[3].clone()) {
        return None;
    }

    if str_eq(args[3].as_str(), "all") {
        let plot_type = if str_eq(args[2].as_str(), "wpm") {
            PlotType::AllWpm
        } else if str_eq(args[2].as_str(), "accuracy") {
            PlotType::AllAcc
        } else {
            return None;
        };
        Some(
            GameOpts {
                mode: GameMode::PLOT,
                file: None,
                plot_data: Some(PlotData { plot_type, letter: None }),
            },
        )
    } else {
        let letter = args[3].clone();
        let plot_type = if str_eq(args[2].as_str(), "wpm") {
            PlotType::LetterWpm
        } else if str_eq(args[2].as_str(), "accuracy") {
            PlotType::LetterAcc
        } else {
            return None;
        };
        Some(
            GameOpts {
                mode: GameMode::PLOT,
                file: None,
                plot_data: Some(PlotData { plot_type, letter: Some(letter) }),
            },
        )
    }
}

/// Read a command line of three or more values: either the long plot shape,
/// or a lone mode flag followed by a flag-and-value pair, whose mode and
/// file are combined.
pub fn parse_three_or_more_options(args: &Vec<String>) -> (r: Option<GameOpts>)
    ensures
        args@.len() < 4 ==> r is None,
        args@.len() >= 4 && args@[1]@ == "--plot"@ ==> {
            &&& (r is Some <==> spec_plot_type_ok(args@[3]@) && (args@[2]@ == "wpm"@ || args@[2]@
                == "accuracy"@))
            &&& (r matches Some(o) ==> o.mode is PLOT && o.file is None && o.plot_data is Some)
        },
        args@.len() >= 4 && args@[1]@ != "--plot"@ ==> {
            &&& (r is Some <==> spec_one_option(args@[1]@) is Some && ((args@[2]@ == "--plot"@ && (
            args@[3]@ == "sin"@ || args@[3]@ == "square"@)) || (args@[2]@ != "--plot"@ && args@[2]@
                == "--file"@)))
            &&& (r matches Some(o) ==> Some(o.mode) == spec_one_option(args@[1]@) && o.plot_data
                is None && (if args@[2]@ != "--plot"@ {
                o.file matches Some(f) && f@ == args@[3]@
            } else {
                o.file is None
            }))
        },
{
    if args.len() < 4 {
        return None;
    }

    if str_eq(args[1].as_str(), "--plot") {
        return parse_long_plot(args);
    }

    let mut second_part: Vec<String> = Vec::new();
    let mut k: usize = 1;
    while k < args.len()
        invariant
            1 <= k <= args@.len(),
            second_part@.len() == k - 1,
            forall|t: int| 0 <= t < k - 1 ==> (#[trigger] second_part@[t])@ == args@[t + 1]@,
        decreases args@.len() - k,
    {
        second_part.push(args[k].clone());
        k += 1;
    }

    let first_options = parse_one_option(args);
    let second_options = parse_two_options(&second_part);

    match (first_options, second_options) {
        (Some(first), Some(second)) => Some(
            GameOpts { mode: first.mode, file: second.file, plot_data: None },
        ),
        _ => None,
    }
}

} // verus!
