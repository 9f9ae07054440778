//! How the log looks.
use vstd::prelude::*;

verus! {

/// The log format the operator asked for.
#[derive(Debug, Clone, Copy, PartialEq, Eq, Structural)]
pub enum LogFormat {
    /// Pretty on a terminal, JSON when piped or redirected.
    Auto,
    Pretty,
    Json,
}

impl LogFormat {
    /// Whether lines are JSON objects.
    pub fn is_json(self, stdout_is_terminal: bool) -> (r: bool)
        ensures
            r == match self {
                LogFormat::Json => true,
                LogFormat::Pretty => false,
                LogFormat::Auto => !stdout_is_terminal,
            },
    {
        match self {
            LogFormat::Json => true,
            LogFormat::Pretty => false,
            LogFormat::Auto => !stdout_is_terminal,
        }
    }
}

/// Whether text is coloured: on a terminal, unless `NO_COLOR` is set.
pub fn use_color(stdout_is_terminal: bool, no_color: bool) -> (r: bool)
    ensures
        r == (stdout_is_terminal && !no_color),
{
    stdout_is_terminal && !no_color
}

/// What is logged unless `RUST_LOG` says otherwise.
pub fn default_filter() -> (r: &'static str)
    ensures
        r@ == "sturnus=info"@,
{
    "sturnus=info"
}

/// Lines are JSON where it was asked for, and where nothing was and nobody
/// watches; colour is for a terminal that does not refuse it.
pub proof fn logs_are_json_unless_somebody_watches(
    format: LogFormat,
    terminal: bool,
    json: bool,
    no_color: bool,
    colored: bool,
    filter: &'static str,
)
    requires
        call_ensures(LogFormat::is_json, (format, terminal), json),
        call_ensures(use_color, (terminal, no_color), colored),
        call_ensures(default_filter, (), filter),
    ensures
        json <==> format == LogFormat::Json || format == LogFormat::Auto && !terminal,
        colored <==> terminal && !no_color,
        filter@ == "sturnus=info"@,
{
}

} // verus!
