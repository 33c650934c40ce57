use crate::text::{parse_number, unsigned, views};
use vstd::prelude::*;
use vstd::string::StringExecFns;

verus! {

/// What the options of a run are set to.
pub struct Settings {
    pub show_first: bool,
    pub help: bool,
    pub solution_interval: usize,
    pub level_limit: usize,
    pub preprocess: bool,
    pub report_delta: u64,
    pub randomization_seed: Option<u64>,
    pub timeout: Option<u64>,
    pub verbose: bool,
}

/// The settings of a run that was started without options.
pub open spec fn defaults() -> Settings {
    Settings {
        show_first: false,
        help: false,
        solution_interval: 0,
        level_limit: 12,
        preprocess: false,
        report_delta: 5,
        randomization_seed: None,
        timeout: None,
        verbose: false,
    }
}

/// Whether the argument is the option with the given long or short name.
pub open spec fn names(a: Seq<char>, long: &str, short: &str) -> bool {
    a == long@ || a == short@
}

/// The number that the argument at place `i` writes, if there is such an
/// argument and it writes a number no larger than `max`.
pub open spec fn value_at(args: Seq<Seq<char>>, i: int, max: nat) -> Option<nat> {
    if 0 <= i < args.len() {
        unsigned(args[i], max)
    } else {
        None
    }
}

/// The settings that the arguments from place `i` on make of the settings
/// `c`, or the complaint about the first option whose number is missing
/// or is no number. The arguments are read left to right; a request for
/// help ends the reading; what is no option is passed over.
pub open spec fn settings(args: Seq<Seq<char>>, i: int, c: Settings) -> Result<
    Settings,
    Seq<char>,
>
    decreases args.len() - i,
{
    if i < 0 || i >= args.len() {
        Ok(c)
    } else if names(args[i], "--show-first", "-f") {
        settings(args, i + 1, Settings { show_first: true, ..c })
    } else if names(args[i], "--help", "-h") {
        Ok(Settings { help: true, ..c })
    } else if names(args[i], "--solution-interval", "-i") {
        match value_at(args, i + 1, usize::MAX as nat) {
            Some(v) => settings(args, i + 2, Settings { solution_interval: v as usize, ..c }),
            None => Err("--solution-interval (-i) requires an integer argument"@),
        }
    } else if names(args[i], "--level-limit", "-l") {
        match value_at(args, i + 1, usize::MAX as nat) {
            Some(v) => settings(args, i + 2, Settings { level_limit: v as usize, ..c }),
            None => Err("--level-limit (-l) requires an integer argument"@),
        }
    } else if names(args[i], "--preprocess", "-p") {
        settings(args, i + 1, Settings { preprocess: true, ..c })
    } else if names(args[i], "--report", "-r") {
        match value_at(args, i + 1, u64::MAX as nat) {
            Some(v) => settings(args, i + 2, Settings { report_delta: v as u64, ..c }),
            None => Err("--report (-r) requires an integer argument"@),
        }
    } else if names(args[i], "--randomize", "-s") {
        match value_at(args, i + 1, u64::MAX as nat) {
            Some(v) => settings(
                args,
                i + 2,
                Settings { randomization_seed: Some(v as u64), ..c },
            ),
            None => Err("--randomize (-s) requires an integer argument"@),
        }
    } else if names(args[i], "--timeout", "-t") {
        match value_at(args, i + 1, u64::MAX as nat) {
            Some(v) => settings(args, i + 2, Settings { timeout: Some(v as u64), ..c }),
            None => Err("--timeout (-t) requires an integer argument"@),
        }
    } else if names(args[i], "--verbose", "-v") {
        settings(args, i + 1, Settings { verbose: true, ..c })
    } else {
        settings(args, i + 1, c)
    }
}

/// Whether `arg` is the option with the given long or short name.
fn named(arg: &String, long: &str, short: &str) -> (r: bool)
    ensures
        r == names(arg@, long, short),
{
    let a = String::from_str(long);
    let b = String::from_str(short);
    *arg == a || *arg == b
}

/// Reads the number that the argument after place `i` writes.
fn value_after(args: &[String], i: usize, max: u64) -> (r: Option<u64>)
    requires
        i < args@.len(),
    ensures
        r matches Some(v) ==> value_at(views(args@), i + 1, max as nat) == Some(v as nat),
        r is None ==> value_at(views(args@), i + 1, max as nat) is None,
{
    if i < args.len() - 1 {
        parse_number(args[i + 1].as_str(), max)
    } else {
        None
    }
}

/// The options of a run.
pub struct Config {
    show_first: bool,
    help: bool,
    solution_interval: usize,
    level_limit: usize,
    preprocess: bool,
    report_delta: u64,
    randomization_seed: Option<u64>,
    timeout: Option<u64>,
    verbose: bool,
}

impl View for Config {
    type V = Settings;

    closed spec fn view(&self) -> Settings {
        Settings {
            show_first: self.show_first,
            help: self.help,
            solution_interval: self.solution_interval,
            level_limit: self.level_limit,
            preprocess: self.preprocess,
            report_delta: self.report_delta,
            randomization_seed: self.randomization_seed,
            timeout: self.timeout,
            verbose: self.verbose,
        }
    }
}

impl Config {
    /// Reads the options of a run from its arguments. Fails with a
    /// complaint if an option that takes a number is not followed by one.
    pub fn build(args: &[String]) -> (r: Result<Self, &'static str>)
        ensures
            match r {
                Ok(c) => settings(views(args@), 0, defaults()) == Ok::<_, Seq<char>>(c@),
                Err(e) => settings(views(args@), 0, defaults()) == Err::<Settings, _>(e@),
            },
    {
        let mut config = Config {
            show_first: false,
            help: false,
            solution_interval: 0,
            level_limit: 12,
            preprocess: false,
            report_delta: 5,
            randomization_seed: None,
            timeout: None,
            verbose: false,
        };
        let ghost all = views(args@);
        let mut i: usize = 0;
        while i < args.len()
            invariant
                all == views(args@),
                0 <= i <= args@.len(),
                settings(all, i as int, config@) == settings(all, 0, defaults()),
            decreases args@.len() - i,
        {
            let arg = &args[i];
            proof {
                assert(all[i as int] == arg@);
            }
            if named(arg, "--show-first", "-f") {
                config.show_first = true;
                i += 1;
            } else if named(arg, "--help", "-h") {
                config.help = true;
                return Ok(config);
            } else if named(arg, "--solution-interval", "-i") {
                match value_after(args, i, usize::MAX as u64) {
                    Some(v) => {
                        config.solution_interval = v as usize;
                        i += 2;
                    },
                    None => {
                        return Err("--solution-interval (-i) requires an integer argument");
                    },
                }
            } else if named(arg, "--level-limit", "-l") {
                match value_after(args, i, usize::MAX as u64) {
                    Some(v) => {
                        config.level_limit = v as usize;
                        i += 2;
                    },
                    None => {
                        return Err("--level-limit (-l) requires an integer argument");
                    },
                }
            } else if named(arg, "--preprocess", "-p") {
                config.preprocess = true;
                i += 1;
            } else if named(arg, "--report", "-r") {
                match value_after(args, i, u64::MAX) {
                    Some(v) => {
                        config.report_delta = v;
                        i += 2;
                    },
                    None => {
                        return Err("--report (-r) requires an integer argument");
                    },
                }
            } else if named(arg, "--randomize", "-s") {
                match value_after(args, i, u64::MAX) {
                    Some(v) => {
                        config.randomization_seed = Some(v);
                        i += 2;
                    },
                    None => {
                        return Err("--randomize (-s) requires an integer argument");
                    },
                }
            } else if named(arg, "--timeout", "-t") {
                match value_after(args, i, u64::MAX) {
                    Some(v) => {
                        config.timeout = Some(v);
                        i += 2;
                    },
                    None => {
                        return Err("--timeout (-t) requires an integer argument");
                    },
                }
            } else if named(arg, "--verbose", "-v") {
                config.verbose = true;
                i += 1;
            } else {
                i += 1;
            }
        }
        Ok(config)
    }

    /// Whether the first solution is to be shown.
    pub fn show_first(&self) -> (r: bool)
        ensures
            r == self@.show_first,
    {
        self.show_first
    }

    /// Whether the help text was asked for.
    pub fn help(&self) -> (r: bool)
        ensures
            r == self@.help,
    {
        self.help
    }

    /// Every how many solutions one is to be shown; 0 for none.
    pub fn get_solution_interval(&self) -> (r: usize)
        ensures
            r == self@.solution_interval,
    {
        self.solution_interval
    }

    /// How many levels a progress report shows.
    pub fn get_level_limit(&self) -> (r: usize)
        ensures
            r == self@.level_limit,
    {
        self.level_limit
    }

    /// Whether preprocessing was asked for.
    pub fn preprocess(&self) -> (r: bool)
        ensures
            r == self@.preprocess,
    {
        self.preprocess
    }

    /// Seconds between two progress reports.
    pub fn get_report_delta(&self) -> (r: u64)
        ensures
            r == self@.report_delta,
    {
        self.report_delta
    }

    /// The seed that was given, if any. It has no effect on the search.
    pub fn get_randomization_seed(&self) -> (r: Option<u64>)
        ensures
            r == self@.randomization_seed,
    {
        self.randomization_seed
    }

    /// Seconds after which the search is abandoned, if any.
    pub fn get_timeout(&self) -> (r: Option<u64>)
        ensures
            r == self@.timeout,
    {
        self.timeout
    }

    /// Whether the summary is to be detailed.
    pub fn is_verbose(&self) -> (r: bool)
        ensures
            r == self@.verbose,
    {
        self.verbose
    }
}

} // verus!
