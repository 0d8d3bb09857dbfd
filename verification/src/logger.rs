//! Configuration of a logger: its outputs and the layout of its lines.

use vstd::prelude::*;
use vstd::string::StringExecFns;

use crate::text::same_text;

verus! {

/// The name of the output that writes to the standard output.
pub const LOGGER_STDOUT_NAME: &'static str = "stdout";

/// Default width of the target section of a log line.
pub const DEFAULT_TARGET_WIDTH: usize = 42;

/// Default width of the level section of a log line.
pub const DEFAULT_LEVEL_WIDTH: usize = 5;

/// How much an output logs: nothing, or the messages up to a level.
#[derive(Clone, Copy, Debug, PartialEq, Eq, Structural)]
pub enum LevelFilter {
    Off,
    Error,
    Warn,
    Info,
    Debug,
    Trace,
}

/// The characters of a string in lower case, as std computes them.
pub uninterp spec fn spec_lowercase(chars: Seq<char>) -> Seq<char>;

/// The string in lower case.
///
/// Trusted: `str::to_lowercase` of std. Its result is named `spec_lowercase`.
#[verifier::external_body]
pub(crate) fn lowercase(string: &str) -> (r: String)
    ensures
        r@ == spec_lowercase(string@),
{
    string.to_lowercase()
}

/// Each of the strings in lower case.
pub open spec fn spec_lowercase_all(strings: Seq<Seq<char>>) -> Seq<Seq<char>> {
    Seq::new(strings.len(), |i: int| spec_lowercase(strings[i]))
}

/// Each of the strings in lower case, in the same order.
pub fn lowercase_all(strings: &Vec<String>) -> (r: Vec<String>)
    ensures
        r.deep_view() == spec_lowercase_all(strings.deep_view()),
{
    let mut out: Vec<String> = Vec::new();
    let mut i: usize = 0;
    while i < strings.len()
        invariant
            i <= strings.len(),
            out@.len() == i,
            forall|j: int| 0 <= j < i ==> (#[trigger] out@[j])@ == spec_lowercase(strings@[j]@),
        decreases strings.len() - i,
    {
        out.push(lowercase(strings[i].as_str()));
        i += 1;
    }
    proof {
        assert(out.deep_view() =~= spec_lowercase_all(strings.deep_view()));
    }
    out
}

/// The strings as owned strings, in the same order.
pub fn to_strings(strs: &[&str]) -> (r: Vec<String>)
    ensures
        r.deep_view() == strs.deep_view(),
{
    let mut out: Vec<String> = Vec::new();
    let mut i: usize = 0;
    while i < strs.len()
        invariant
            i <= strs.len(),
            out@.len() == i,
            forall|j: int| 0 <= j < i ==> (#[trigger] out@[j])@ == strs@[j]@,
        decreases strs.len() - i,
    {
        out.push(String::from_str(strs[i]));
        i += 1;
    }
    proof {
        assert(out.deep_view() =~= strs.deep_view());
    }
    out
}

/// What a [`LoggerOutputConfigBuilder`] holds: each setting, if it was made.
pub struct LoggerOutputConfigBuilderView {
    pub name: Option<Seq<char>>,
    pub level_filter: Option<LevelFilter>,
    pub target_filters: Option<Seq<Seq<char>>>,
    pub target_exclusions: Option<Seq<Seq<char>>>,
    pub color_enabled: Option<bool>,
}

/// Builder for a logger output configuration.
#[derive(Debug)]
pub struct LoggerOutputConfigBuilder {
    name: Option<String>,
    level_filter: Option<LevelFilter>,
    target_filters: Option<Vec<String>>,
    target_exclusions: Option<Vec<String>>,
    color_enabled: Option<bool>,
}

impl View for LoggerOutputConfigBuilder {
    type V = LoggerOutputConfigBuilderView;

    closed spec fn view(&self) -> LoggerOutputConfigBuilderView {
        LoggerOutputConfigBuilderView {
            name: match self.name {
                Some(name) => Some(name@),
                None => None,
            },
            level_filter: self.level_filter,
            target_filters: match self.target_filters {
                Some(filters) => Some(filters.deep_view()),
                None => None,
            },
            target_exclusions: match self.target_exclusions {
                Some(exclusions) => Some(exclusions.deep_view()),
                None => None,
            },
            color_enabled: self.color_enabled,
        }
    }
}

impl Default for LoggerOutputConfigBuilder {
    fn default() -> (r: Self)
        ensures
            r@ == (LoggerOutputConfigBuilderView {
                name: None,
                level_filter: None,
                target_filters: None,
                target_exclusions: None,
                color_enabled: None,
            }),
    {
        LoggerOutputConfigBuilder {
            name: None,
            level_filter: None,
            target_filters: None,
            target_exclusions: None,
            color_enabled: None,
        }
    }
}

/// What a [`LoggerOutputConfig`] holds.
pub struct LoggerOutputConfigView {
    pub name: Seq<char>,
    pub level_filter: LevelFilter,
    pub target_filters: Seq<Seq<char>>,
    pub target_exclusions: Seq<Seq<char>>,
    pub color_enabled: bool,
}

/// The configuration that a builder with these settings finishes to: what was not set
/// takes its default, and the filters and exclusions are in lower case.
pub open spec fn spec_finish_output(
    builder: LoggerOutputConfigBuilderView,
) -> LoggerOutputConfigView {
    LoggerOutputConfigView {
        name: match builder.name {
            Some(name) => name,
            None => LOGGER_STDOUT_NAME@,
        },
        level_filter: match builder.level_filter {
            Some(level) => level,
            None => LevelFilter::Info,
        },
        target_filters: match builder.target_filters {
            Some(filters) => spec_lowercase_all(filters),
            None => Seq::empty(),
        },
        target_exclusions: match builder.target_exclusions {
            Some(exclusions) => spec_lowercase_all(exclusions),
            None => Seq::empty(),
        },
        color_enabled: match builder.color_enabled {
            Some(color) => color,
            None => false,
        },
    }
}

impl LoggerOutputConfigBuilder {
    /// Creates a builder with nothing set.
    pub fn new() -> (r: Self)
        ensures
            r@ == (LoggerOutputConfigBuilderView {
                name: None,
                level_filter: None,
                target_filters: None,
                target_exclusions: None,
                color_enabled: None,
            }),
    {
        Self::default()
    }

    /// Sets the name of the output.
    pub fn name(self, name: &str) -> (r: Self)
        ensures
            r@ == (LoggerOutputConfigBuilderView { name: Some(name@), ..self@ }),
    {
        let mut builder = self;
        builder.name = Some(String::from_str(name));
        builder
    }

    /// Sets the level filter of the output.
    pub fn level_filter(self, level: LevelFilter) -> (r: Self)
        ensures
            r@ == (LoggerOutputConfigBuilderView { level_filter: Some(level), ..self@ }),
    {
        let mut builder = self;
        builder.level_filter = Some(level);
        builder
    }

    /// Sets the target filters of the output: a message is logged if its target holds one
    /// of them.
    pub fn target_filters(self, target_filters: &[&str]) -> (r: Self)
        ensures
            r@ == (LoggerOutputConfigBuilderView {
                target_filters: Some(target_filters.deep_view()),
                ..self@
            }),
    {
        let mut builder = self;
        builder.target_filters = Some(to_strings(target_filters));
        builder
    }

    /// Sets the target exclusions of the output: a message is not logged if its target
    /// holds one of them.
    pub fn target_exclusions(self, target_exclusions: &[&str]) -> (r: Self)
        ensures
            r@ == (LoggerOutputConfigBuilderView {
                target_exclusions: Some(target_exclusions.deep_view()),
                ..self@
            }),
    {
        let mut builder = self;
        builder.target_exclusions = Some(to_strings(target_exclusions));
        builder
    }

    /// Sets whether the output is coloured.
    pub fn color_enabled(self, color: bool) -> (r: Self)
        ensures
            r@ == (LoggerOutputConfigBuilderView { color_enabled: Some(color), ..self@ }),
    {
        let mut builder = self;
        builder.color_enabled = Some(color);
        builder
    }

    /// The configuration that the builder stands for, the builder left as it is.
    pub fn finish_ref(&self) -> (r: LoggerOutputConfig)
        ensures
            r@ == spec_finish_output(self@),
    {
        let name = match &self.name {
            Some(name) => name.clone(),
            None => String::from_str(LOGGER_STDOUT_NAME),
        };
        let level_filter = match self.level_filter {
            Some(level) => level,
            None => LevelFilter::Info,
        };
        let target_filters = match &self.target_filters {
            Some(filters) => lowercase_all(filters),
            None => Vec::new(),
        };
        let target_exclusions = match &self.target_exclusions {
            Some(exclusions) => lowercase_all(exclusions),
            None => Vec::new(),
        };
        let color_enabled = match self.color_enabled {
            Some(color) => color,
            None => false,
        };
        proof {
            assert(self.target_filters is None ==> target_filters.deep_view() =~= Seq::<
                Seq<char>,
            >::empty());
            assert(self.target_exclusions is None ==> target_exclusions.deep_view() =~= Seq::<
                Seq<char>,
            >::empty());
        }
        LoggerOutputConfig { name, level_filter, target_filters, target_exclusions, color_enabled }
    }

    /// Builds the configuration.
    pub fn finish(self) -> (r: LoggerOutputConfig)
        ensures
            r@ == spec_finish_output(self@),
    {
        self.finish_ref()
    }
}

/// Logger output configuration.
#[derive(Clone, Debug)]
pub struct LoggerOutputConfig {
    name: String,
    level_filter: LevelFilter,
    target_filters: Vec<String>,
    target_exclusions: Vec<String>,
    color_enabled: bool,
}

impl View for LoggerOutputConfig {
    type V = LoggerOutputConfigView;

    closed spec fn view(&self) -> LoggerOutputConfigView {
        LoggerOutputConfigView {
            name: self.name@,
            level_filter: self.level_filter,
            target_filters: self.target_filters.deep_view(),
            target_exclusions: self.target_exclusions.deep_view(),
            color_enabled: self.color_enabled,
        }
    }
}

impl LoggerOutputConfig {
    /// The name of the output.
    pub fn name(&self) -> (r: &str)
        ensures
            r@ == self@.name,
    {
        self.name.as_str()
    }

    /// The level filter of the output.
    pub fn level_filter(&self) -> (r: LevelFilter)
        ensures
            r == self@.level_filter,
    {
        self.level_filter
    }

    /// The target filters of the output.
    pub fn target_filters(&self) -> (r: &[String])
        ensures
            r.deep_view() == self@.target_filters,
    {
        let r = self.target_filters.as_slice();
        proof {
            assert(r.deep_view() =~= self.target_filters.deep_view());
        }
        r
    }

    /// The target exclusions of the output.
    pub fn target_exclusions(&self) -> (r: &[String])
        ensures
            r.deep_view() == self@.target_exclusions,
    {
        let r = self.target_exclusions.as_slice();
        proof {
            assert(r.deep_view() =~= self.target_exclusions.deep_view());
        }
        r
    }

    /// Whether the output is coloured.
    pub fn color_enabled(&self) -> (r: bool)
        ensures
            r == self@.color_enabled,
    {
        self.color_enabled
    }
}

/// What a [`LoggerConfigBuilder`] holds: each setting, if it was made.
pub struct LoggerConfigBuilderView {
    pub target_width: Option<usize>,
    pub level_width: Option<usize>,
    pub outputs: Option<Seq<LoggerOutputConfigBuilderView>>,
}

/// Builder for a logger configuration.
#[derive(Debug)]
pub struct LoggerConfigBuilder {
    target_width: Option<usize>,
    level_width: Option<usize>,
    outputs: Option<Vec<LoggerOutputConfigBuilder>>,
}

/// The views of the output builders.
pub open spec fn builder_views(outputs: Seq<LoggerOutputConfigBuilder>) -> Seq<
    LoggerOutputConfigBuilderView,
> {
    Seq::new(outputs.len(), |i: int| outputs[i]@)
}

/// The views of the output configurations.
pub open spec fn output_views(outputs: Seq<LoggerOutputConfig>) -> Seq<LoggerOutputConfigView> {
    Seq::new(outputs.len(), |i: int| outputs[i]@)
}

impl View for LoggerConfigBuilder {
    type V = LoggerConfigBuilderView;

    closed spec fn view(&self) -> LoggerConfigBuilderView {
        LoggerConfigBuilderView {
            target_width: self.target_width,
            level_width: self.level_width,
            outputs: match self.outputs {
                Some(outputs) => Some(builder_views(outputs@)),
                None => None,
            },
        }
    }
}

impl Default for LoggerConfigBuilder {
    fn default() -> (r: Self)
        ensures
            r@ == (LoggerConfigBuilderView {
                target_width: None,
                level_width: None,
                outputs: None,
            }),
    {
        LoggerConfigBuilder { target_width: None, level_width: None, outputs: None }
    }
}

/// The index of the first output that has the name `name`, or the number of outputs if none
/// has it.
pub open spec fn first_named(outputs: Seq<LoggerOutputConfigBuilderView>, name: Seq<char>) -> int
    decreases outputs.len(),
{
    if outputs.len() == 0 {
        0
    } else if outputs[0].name == Some(name) {
        0
    } else {
        1 + first_named(outputs.skip(1), name)
    }
}

/// The outputs after the level filter of the first output named `name` was set to `level`:
/// the same outputs if none has the name.
pub open spec fn spec_set_level(
    outputs: Seq<LoggerOutputConfigBuilderView>,
    name: Seq<char>,
    level: LevelFilter,
) -> Seq<LoggerOutputConfigBuilderView> {
    let i = first_named(outputs, name);
    if 0 <= i < outputs.len() {
        outputs.update(
            i,
            LoggerOutputConfigBuilderView { level_filter: Some(level), ..outputs[i] },
        )
    } else {
        outputs
    }
}

/// The configurations that the output builders finish to, in the same order.
pub open spec fn spec_finish_outputs(outputs: Seq<LoggerOutputConfigBuilderView>) -> Seq<
    LoggerOutputConfigView,
> {
    Seq::new(outputs.len(), |i: int| spec_finish_output(outputs[i]))
}

/// What a [`LoggerConfig`] holds.
pub struct LoggerConfigView {
    pub target_width: usize,
    pub level_width: usize,
    pub outputs: Seq<LoggerOutputConfigView>,
}

/// The configuration that a builder with these settings finishes to.
pub open spec fn spec_finish(builder: LoggerConfigBuilderView) -> LoggerConfigView {
    LoggerConfigView {
        target_width: match builder.target_width {
            Some(width) => width,
            None => DEFAULT_TARGET_WIDTH,
        },
        level_width: match builder.level_width {
            Some(width) => width,
            None => DEFAULT_LEVEL_WIDTH,
        },
        outputs: match builder.outputs {
            Some(outputs) => spec_finish_outputs(outputs),
            None => Seq::empty(),
        },
    }
}

/// The first output that has the name is where `first_named` points.
proof fn lemma_first_named(outputs: Seq<LoggerOutputConfigBuilderView>, name: Seq<char>, i: int)
    requires
        0 <= i <= outputs.len(),
        forall|j: int| 0 <= j < i ==> (#[trigger] outputs[j]).name != Some(name),
        i < outputs.len() ==> outputs[i].name == Some(name),
    ensures
        first_named(outputs, name) == i,
    decreases i,
{
    if i > 0 {
        assert(outputs[0].name != Some(name));
        assert forall|j: int| 0 <= j < i - 1 implies (#[trigger] outputs.skip(1)[j]).name != Some(
            name,
        ) by {
            assert(outputs.skip(1)[j] == outputs[j + 1]);
        }
        lemma_first_named(outputs.skip(1), name, i - 1);
    }
}

impl LoggerConfigBuilder {
    /// Sets the width of the target section of a log line.
    pub fn with_target_width(self, width: usize) -> (r: Self)
        ensures
            r@ == (LoggerConfigBuilderView { target_width: Some(width), ..self@ }),
    {
        let mut builder = self;
        builder.target_width = Some(width);
        builder
    }

    /// Sets the width of the level section of a log line.
    pub fn with_level_width(self, width: usize) -> (r: Self)
        ensures
            r@ == (LoggerConfigBuilderView { level_width: Some(width), ..self@ }),
    {
        let mut builder = self;
        builder.level_width = Some(width);
        builder
    }

    /// Adds an output, behind the outputs added before.
    pub fn with_output(self, output: LoggerOutputConfigBuilder) -> (r: Self)
        ensures
            r@ == (LoggerConfigBuilderView {
                outputs: Some(
                    match self@.outputs {
                        Some(outputs) => outputs.push(output@),
                        None => seq![output@],
                    },
                ),
                ..self@
            }),
    {
        let LoggerConfigBuilder { target_width, level_width, outputs } = self;
        let mut outputs = match outputs {
            Some(outputs) => outputs,
            None => Vec::new(),
        };
        let ghost before = outputs@;
        outputs.push(output);
        proof {
            assert(builder_views(outputs@) =~= builder_views(before).push(output@));
            assert(builder_views(before).len() == 0 ==> builder_views(before).push(output@)
                =~= seq![output@]);
        }
        LoggerConfigBuilder { target_width, level_width, outputs: Some(outputs) }
    }

    /// Sets the level filter of the first output that has the name `name`, if there is one.
    pub fn level(&mut self, name: &str, level: LevelFilter)
        ensures
            final(self)@ == (LoggerConfigBuilderView {
                outputs: match old(self)@.outputs {
                    Some(outputs) => Some(spec_set_level(outputs, name@, level)),
                    None => None,
                },
                ..old(self)@
            }),
    {
        let mut outputs = match self.outputs.take() {
            Some(outputs) => outputs,
            None => {
                return ;
            },
        };
        let ghost before = builder_views(outputs@);
        let mut i: usize = 0;
        let mut found = false;
        while i < outputs.len() && !found
            invariant
                i <= outputs@.len(),
                before == builder_views(outputs@),
                forall|j: int| 0 <= j < i ==> (#[trigger] before[j]).name != Some(name@),
                found ==> i < outputs@.len() && before[i as int].name == Some(name@),
            decreases outputs@.len() - i + if found { 0int } else { 1int },
        {
            found = match &outputs[i].name {
                Some(output_name) => same_text(output_name.as_str(), name),
                None => false,
            };
            if !found {
                i += 1;
            }
        }
        proof {
            lemma_first_named(before, name@, i as int);
        }
        if i < outputs.len() {
            let mut output = outputs.remove(i);
            output.level_filter = Some(level);
            outputs.insert(i, output);
            proof {
                assert(builder_views(outputs@) =~= spec_set_level(before, name@, level));
            }
        }
        self.outputs = Some(outputs);
    }

    /// Builds the configuration.
    pub fn finish(self) -> (r: LoggerConfig)
        ensures
            r@ == spec_finish(self@),
    {
        let mut finished: Vec<LoggerOutputConfig> = Vec::new();
        match &self.outputs {
            Some(outputs) => {
                let mut i: usize = 0;
                while i < outputs.len()
                    invariant
                        i <= outputs@.len(),
                        finished@.len() == i,
                        forall|j: int|
                            0 <= j < i ==> (#[trigger] finished@[j])@ == spec_finish_output(
                                outputs@[j]@,
                            ),
                    decreases outputs@.len() - i,
                {
                    finished.push(outputs[i].finish_ref());
                    i += 1;
                }
                proof {
                    assert(output_views(finished@) =~= spec_finish_outputs(
                        builder_views(outputs@),
                    ));
                }
            },
            None => {
                proof {
                    assert(output_views(finished@) =~= Seq::<LoggerOutputConfigView>::empty());
                }
            },
        }
        LoggerConfig {
            target_width: match self.target_width {
                Some(width) => width,
                None => DEFAULT_TARGET_WIDTH,
            },
            level_width: match self.level_width {
                Some(width) => width,
                None => DEFAULT_LEVEL_WIDTH,
            },
            outputs: finished,
        }
    }
}

/// Logger configuration.
#[derive(Clone, Debug)]
pub struct LoggerConfig {
    target_width: usize,
    level_width: usize,
    outputs: Vec<LoggerOutputConfig>,
}

impl View for LoggerConfig {
    type V = LoggerConfigView;

    closed spec fn view(&self) -> LoggerConfigView {
        LoggerConfigView {
            target_width: self.target_width,
            level_width: self.level_width,
            outputs: output_views(self.outputs@),
        }
    }
}

impl Default for LoggerConfig {
    fn default() -> (r: Self)
        ensures
            r@ == (LoggerConfigView {
                target_width: DEFAULT_TARGET_WIDTH,
                level_width: DEFAULT_LEVEL_WIDTH,
                outputs: Seq::empty(),
            }),
    {
        LoggerConfigBuilder::default().finish()
    }
}

impl LoggerConfig {
    /// Creates a builder for a logger configuration, with nothing set.
    pub fn build() -> (r: LoggerConfigBuilder)
        ensures
            r@ == (LoggerConfigBuilderView {
                target_width: None,
                level_width: None,
                outputs: None,
            }),
    {
        LoggerConfigBuilder::default()
    }

    /// The width of the target section of a log line.
    pub fn target_width(&self) -> (r: usize)
        ensures
            r == self@.target_width,
    {
        self.target_width
    }

    /// The width of the level section of a log line.
    pub fn level_width(&self) -> (r: usize)
        ensures
            r == self@.level_width,
    {
        self.level_width
    }

    /// The outputs of the logger.
    pub fn outputs(&self) -> (r: &[LoggerOutputConfig])
        ensures
            output_views(r@) == self@.outputs,
    {
        self.outputs.as_slice()
    }
}

} // verus!
