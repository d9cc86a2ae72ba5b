//! Configuration model and the rule by which a loaded configuration fills
//! in command-line settings.
//!
//! Reading and writing configuration files is the caller's business; this
//! module owns the shape of the configuration and the precedence rule:
//! explicitly given command-line settings always win over the configuration
//! file.

use vstd::prelude::*;

verus! {

/// Output settings: format name, progress-bar visibility, worker count
/// (zero means "let the runtime choose").
#[derive(Clone, Debug)]
pub struct OutputConfig {
    pub format: String,
    pub show_progress: bool,
    pub threads: usize,
}

/// Analysis settings: entropy mode, directory recursion, extension filter.
#[derive(Clone, Debug)]
pub struct AnalysisConfig {
    pub bit_level: bool,
    pub recursive: bool,
    pub extension: Option<String>,
}

/// Visualization settings.
#[derive(Clone, Debug)]
pub struct VisualizationConfig {
    pub show_histogram: bool,
    pub show_frequency_chart: bool,
    pub frequency_top_n: usize,
}

/// The whole configuration.
#[derive(Clone, Debug)]
pub struct Config {
    pub output: OutputConfig,
    pub analysis: AnalysisConfig,
    pub visualization: VisualizationConfig,
}

/// The default output format name.
pub fn default_format() -> (r: String)
    ensures
        r@ == "text"@,
{
    "text".to_owned()
}

/// The default for settings that are on unless switched off.
pub fn default_true() -> (r: bool)
    ensures
        r == true,
{
    true
}

/// How many of the most frequent bytes a frequency chart shows by default.
pub fn default_frequency_top_n() -> (r: usize)
    ensures
        r == 10,
{
    10
}

impl Default for OutputConfig {
    fn default() -> (r: Self)
        ensures
            r.format@ == "text"@,
            r.show_progress == true,
            r.threads == 0,
    {
        OutputConfig { format: default_format(), show_progress: true, threads: 0 }
    }
}

impl Default for AnalysisConfig {
    fn default() -> (r: Self)
        ensures
            r.bit_level == false,
            r.recursive == false,
            r.extension is None,
    {
        AnalysisConfig { bit_level: false, recursive: false, extension: None }
    }
}

impl Default for VisualizationConfig {
    fn default() -> (r: Self)
        ensures
            r.show_histogram == true,
            r.show_frequency_chart == true,
            r.frequency_top_n == 10,
    {
        VisualizationConfig {
            show_histogram: true,
            show_frequency_chart: true,
            frequency_top_n: default_frequency_top_n(),
        }
    }
}

impl Default for Config {
    fn default() -> (r: Self)
        ensures
            r.output.format@ == "text"@,
            r.output.show_progress == true,
            r.output.threads == 0,
            r.analysis.bit_level == false,
            r.analysis.recursive == false,
            r.analysis.extension is None,
            r.visualization.show_histogram == true,
            r.visualization.show_frequency_chart == true,
            r.visualization.frequency_top_n == 10,
    {
        Config {
            output: OutputConfig::default(),
            analysis: AnalysisConfig::default(),
            visualization: VisualizationConfig::default(),
        }
    }
}

/// The command-line settings that a configuration file may fill in.
#[derive(Clone, Debug)]
pub struct RunOptions {
    pub bit_level: bool,
    pub recursive: bool,
    pub extension: Option<String>,
    pub no_progress: bool,
    pub threads: usize,
    pub histogram: bool,
    pub frequency: bool,
    pub frequency_top: usize,
}

/// Fill settings from the configuration, with the command line taking
/// precedence: a flag already switched on stays on, a filter already given
/// stays, an explicit thread count or top-N count stays at its given value.
pub fn apply_config_to_args(config: &Config, args: &mut RunOptions)
    ensures
        final (args).bit_level == (old(args).bit_level || config.analysis.bit_level),
        final (args).recursive == (old(args).recursive || config.analysis.recursive),
        old(args).extension is Some ==> final (args).extension == old(args).extension,
        old(args).extension is None ==> {
            &&& (final (args).extension is Some <==> config.analysis.extension is Some)
            &&& (config.analysis.extension matches Some(e) ==> final (args).extension matches Some(
                f,
            ) && f@ == e@)
        },
        final (args).no_progress == (old(args).no_progress || !config.output.show_progress),
        final (args).threads == (if old(args).threads == 0 {
            config.output.threads
        } else {
            old(args).threads
        }),
        final (args).histogram == (old(args).histogram || config.visualization.show_histogram),
        final (args).frequency == (old(args).frequency
            || config.visualization.show_frequency_chart),
        final (args).frequency_top == (if old(args).frequency_top == 10 {
            config.visualization.frequency_top_n
        } else {
            old(args).frequency_top
        }),
{
    if !args.bit_level {
        args.bit_level = config.analysis.bit_level;
    }
    if !args.recursive {
        args.recursive = config.analysis.recursive;
    }
    if args.extension.is_none() {
        match &config.analysis.extension {
            Some(e) => {
                args.extension = Some(e.clone());
            },
            None => {},
        }
    }
    if !args.no_progress {
        args.no_progress = !config.output.show_progress;
    }
    if args.threads == 0 {
        args.threads = config.output.threads;
    }
    if !args.histogram {
        args.histogram = config.visualization.show_histogram;
    }
    if !args.frequency {
        args.frequency = config.visualization.show_frequency_chart;
    }
    if args.frequency_top == 10 {
        args.frequency_top = config.visualization.frequency_top_n;
    }
}

/// Number of leading dot bytes in `s`.
pub open spec fn leading_dots(s: Seq<u8>) -> nat
    decreases s.len(),
{
    if s.len() == 0 || s[0] != 0x2eu8 {
        0
    } else {
        1 + leading_dots(s.skip(1))
    }
}

/// Whether a file's extension (as its bytes, without the dot) matches the
/// configured filter: equal byte for byte, after stripping any leading dots
/// the filter was written with.
pub fn extension_matches(file_ext: &Vec<u8>, filter: &Vec<u8>) -> (r: bool)
    ensures
        r == (file_ext@ == filter@.skip(leading_dots(filter@) as int)),
{
    let flen = filter.len();
    let mut start: usize = 0;
    proof {
        assert(filter@.skip(0) =~= filter@);
    }
    while start < flen && filter[start] == 0x2e
        invariant
            flen == filter@.len(),
            start <= flen,
            leading_dots(filter@) == start + leading_dots(filter@.skip(start as int)),
        decreases flen - start,
    {
        proof {
            let tail = filter@.skip(start as int);
            assert(tail[0] == filter@[start as int]);
            assert(tail.skip(1) =~= filter@.skip(start as int + 1));
        }
        start = start + 1;
    }
    proof {
        if start < flen {
            assert(filter@.skip(start as int)[0] == filter@[start as int]);
        }
        assert(leading_dots(filter@.skip(start as int)) == 0);
        assert(leading_dots(filter@) == start);
    }
    let tail_len = flen - start;
    if file_ext.len() != tail_len {
        proof {
            assert(filter@.skip(start as int).len() == tail_len);
            assert(file_ext@ != filter@.skip(start as int));
        }
        return false;
    }
    let mut k: usize = 0;
    while k < tail_len
        invariant
            flen == filter@.len(),
            start + tail_len == flen,
            leading_dots(filter@) == start,
            file_ext@.len() == tail_len,
            k <= tail_len,
            forall|p: int| 0 <= p < k ==> file_ext@[p] == filter@.skip(start as int)[p],
        decreases tail_len - k,
    {
        if file_ext[k] != filter[start + k] {
            proof {
                assert(filter@.skip(start as int)[k as int] == filter@[start as int + k as int]);
                assert(file_ext@ != filter@.skip(start as int)) by {
                    if file_ext@ == filter@.skip(start as int) {
                        assert(file_ext@[k as int] == filter@.skip(start as int)[k as int]);
                    }
                }
            }
            return false;
        }
        proof {
            assert(filter@.skip(start as int)[k as int] == filter@[start as int + k as int]);
        }
        k = k + 1;
    }
    proof {
        assert(file_ext@ =~= filter@.skip(start as int));
    }
    true
}

} // verus!
