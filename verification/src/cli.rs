use vstd::prelude::*;

verus! {

/// The subcommands of the program.
#[derive(Debug, Clone, Copy, PartialEq, Eq, Structural)]
pub enum Commands {
    /// Fetch and show today's puzzle (also what runs when no subcommand is given).
    Daily,
}

/// The command line: an optional subcommand and two flags.
#[derive(Debug, Clone, Copy, PartialEq, Eq, Structural)]
pub struct Cli {
    pub command: Option<Commands>,
    /// Print the puzzle as JSON.
    pub json: bool,
    /// Print without colours.
    pub no_color: bool,
}

/// How the puzzle is printed.
#[derive(Debug, Clone, Copy, PartialEq, Eq, Structural)]
pub enum OutputFormat {
    /// Pretty-printed JSON.
    Json,
    /// The framed text for the terminal.
    Text,
}

/// What a run does once the command line and the environment are known.
#[derive(Debug, Clone, Copy, PartialEq, Eq, Structural)]
pub struct RunPlan {
    /// Whether colours are switched off.
    pub disable_color: bool,
    /// How the puzzle is printed.
    pub output: OutputFormat,
}

/// Decides a run: colours are off when `--no-color` is given or `NO_COLOR` is set
/// (`no_color_env`); every command fetches today's puzzle, printed as JSON with
/// `--json` and as text otherwise.
pub fn plan_run(cli: &Cli, no_color_env: bool) -> (plan: RunPlan)
    ensures
        plan.disable_color == (cli.no_color || no_color_env),
        plan.output == (if cli.json { OutputFormat::Json } else { OutputFormat::Text }),
{
    let output = match cli.command {
        Some(Commands::Daily) | None => if cli.json {
            OutputFormat::Json
        } else {
            OutputFormat::Text
        },
    };
    RunPlan { disable_color: cli.no_color || no_color_env, output }
}

} // verus!
