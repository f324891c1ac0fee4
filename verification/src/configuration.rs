//! The configuration of a build.
use vstd::prelude::*;

use crate::pattern::{regex_is_match, regex_valid, InvalidRegex, Pattern, Regex};

verus! {

/// The settings of the `diecast` table of a `Diecast.toml` file, each where
/// it is given.
pub struct Settings {
    pub input: Option<String>,
    pub output: Option<String>,
    /// A regular expression for the paths to ignore.
    pub ignore: Option<String>,
}

/// The number of logical cores, as `num_cpus::get` counts them: at least
/// one, as its documentation says. How many depends on the machine, so no
/// more is stated.
#[verifier::external_body]
fn cpu_count() -> (r: usize)
    ensures
        r >= 1,
{
    num_cpus::get()
}

/// The configuration of the build; every bind is given access to it.
pub struct Configuration {
    /// The input directory.
    pub input: String,
    /// The output directory.
    pub output: String,
    /// The root command that was invoked.
    pub command: String,
    /// The number of threads to run handlers on.
    pub threads: usize,
    /// Verbosity flag.
    pub is_verbose: bool,
    /// A global pattern of the paths to ignore.
    pub ignore: Option<Box<dyn Pattern>>,
    /// Whether the build is a preview.
    pub is_preview: bool,
    /// Whether to leave the hidden files and directories at the top level of
    /// the output directory alone when cleaning it out.
    pub ignore_hidden: bool,
}

/// The value of an optional setting, or its default.
fn setting_or(setting: &Option<String>, default: &str) -> (r: String)
    ensures
        r@ == match setting {
            Some(s) => s@,
            None => default@,
        },
{
    match setting {
        Some(s) => s.clone(),
        None => String::from_str(default),
    }
}

impl Configuration {
    /// Whether the configured ignore pattern accepts `path`; no path is
    /// ignored where there is no such pattern.
    pub open spec fn ignores(&self, path: Seq<char>) -> bool {
        match self.ignore {
            Some(p) => p.accepts(path),
            None => false,
        }
    }

    /// The configuration where nothing is set: input from `input`, output to
    /// `output`, one thread per logical core, nothing ignored.
    pub fn new() -> (r: Configuration)
        ensures
            r.input@ == "input"@,
            r.output@ == "output"@,
            r.command@ == Seq::<char>::empty(),
            r.ignore is None,
            r.threads >= 1,
            !r.is_verbose,
            !r.is_preview,
            !r.ignore_hidden,
    {
        Configuration {
            input: String::from_str("input"),
            output: String::from_str("output"),
            command: String::new(),
            threads: cpu_count(),
            is_verbose: false,
            ignore: None,
            is_preview: false,
            ignore_hidden: false,
        }
    }

    /// The configuration that `settings` give: the input and output
    /// directories where they are set (else `input` and `output`), and the
    /// paths that the `ignore` expression matches ignored. Fails where that
    /// expression is no valid regular expression.
    pub fn from_settings(settings: &Settings) -> (r: Result<Configuration, InvalidRegex>)
        ensures
            r is Err <==> (settings.ignore matches Some(s) && !regex_valid(s@)),
            r matches Err(e) ==> settings.ignore matches Some(s) && e.source@ == s@,
            r matches Ok(c) ==> {
                &&& c.input@ == match settings.input {
                    Some(s) => s@,
                    None => "input"@,
                }
                &&& c.output@ == match settings.output {
                    Some(s) => s@,
                    None => "output"@,
                }
                &&& c.command@ == Seq::<char>::empty()
                &&& c.threads >= 1
                &&& match settings.ignore {
                    Some(s) => c.ignore matches Some(p) && forall|path: Seq<char>|
                        #[trigger] p.accepts(path) == regex_is_match(s@, path),
                    None => c.ignore is None,
                }
                &&& !c.is_verbose
                &&& !c.is_preview
                &&& !c.ignore_hidden
            },
    {
        let ignore: Option<Box<dyn Pattern>> = match &settings.ignore {
            Some(s) => match Regex::new(s.as_str()) {
                Ok(re) => Some(Box::new(re)),
                Err(e) => {
                    return Err(e);
                },
            },
            None => None,
        };
        Ok(
            Configuration {
                input: setting_or(&settings.input, "input"),
                output: setting_or(&settings.output, "output"),
                command: String::new(),
                threads: cpu_count(),
                is_verbose: false,
                ignore,
                is_preview: false,
                ignore_hidden: false,
            },
        )
    }

    /// Sets the input directory.
    pub fn input(self, input: &str) -> (r: Configuration)
        ensures
            r == (Configuration { input: r.input, ..self }),
            r.input@ == input@,
    {
        Configuration { input: String::from_str(input), ..self }
    }

    /// Sets the output directory.
    pub fn output(self, output: &str) -> (r: Configuration)
        ensures
            r == (Configuration { output: r.output, ..self }),
            r.output@ == output@,
    {
        Configuration { output: String::from_str(output), ..self }
    }

    /// Sets the number of threads.
    pub fn thread_count(self, count: usize) -> (r: Configuration)
        ensures
            r == (Configuration { threads: count, ..self }),
    {
        Configuration { threads: count, ..self }
    }

    /// Sets the pattern of the paths to ignore: the paths that `pattern`
    /// accepts. The pattern is kept boxed, so that the trait object is the
    /// `Box<P>` pattern, which accepts what `pattern` accepts.
    pub fn ignore<P: Pattern + Sync + Send + 'static>(self, pattern: P) -> (r: Configuration)
        ensures
            r == (Configuration { ignore: r.ignore, ..self }),
            r.ignore matches Some(p) && forall|path: Seq<char>|
                #[trigger] p.accepts(path) == pattern.accepts(path),
    {
        Configuration { ignore: Some(Box::new(Box::new(pattern))), ..self }
    }

    /// Sets whether hidden files survive a clean of the output directory.
    pub fn ignore_hidden(self, ignore_hidden: bool) -> (r: Configuration)
        ensures
            r == (Configuration { ignore_hidden, ..self }),
    {
        Configuration { ignore_hidden, ..self }
    }

    /// Sets whether the build is a preview.
    pub fn preview(self, is_preview: bool) -> (r: Configuration)
        ensures
            r == (Configuration { is_preview, ..self }),
    {
        Configuration { is_preview, ..self }
    }
}

} // verus!
