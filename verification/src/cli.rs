//! The command line: which command the arguments ask for.
use vstd::prelude::*;
use crate::diagnostics::{diag, Diagnostic, DiagnosticView, JppResult, SourceLocation};

verus! {

/// A command of the `jpp` tool.
#[derive(Debug, Clone, PartialEq, Eq)]
pub enum Command {
    /// Generate `.java` files for the `.jpp` files under `input` into `output`.
    Generate { input: String, output: String },
    /// Remove the output directory.
    Clean { output: String },
    /// Parse and generate without writing anything.
    Validate { input: String },
}

/// The content of a command.
pub enum CommandView {
    Generate { input: Seq<char>, output: Seq<char> },
    Clean { output: Seq<char> },
    Validate { input: Seq<char> },
}

impl View for Command {
    type V = CommandView;

    open spec fn view(&self) -> CommandView {
        match self {
            Command::Generate { input, output } => CommandView::Generate {
                input: input@,
                output: output@,
            },
            Command::Clean { output } => CommandView::Clean { output: output@ },
            Command::Validate { input } => CommandView::Validate { input: input@ },
        }
    }
}

pub open spec fn usage_text() -> Seq<char> {
    "Usage:\n  jpp <input-dir> <output-dir>\n  jpp generate <input-dir> <output-dir>\n  jpp clean <output-dir>\n  jpp validate <input-dir>"@
}

pub fn usage() -> (r: &'static str)
    ensures
        r@ == usage_text(),
{
    "Usage:\n  jpp <input-dir> <output-dir>\n  jpp generate <input-dir> <output-dir>\n  jpp clean <output-dir>\n  jpp validate <input-dir>"
}

/// The command that the arguments (without the program name) ask for:
/// `generate <input> <output>`, `clean <output>`, `validate <input>`, or
/// just `<input> <output>` to generate; anything else is answered with the
/// usage text.
pub open spec fn command_of(args: Seq<Seq<char>>) -> Result<CommandView, DiagnosticView> {
    if args.len() == 3 && args[0] == "generate"@ {
        Ok(CommandView::Generate { input: args[1], output: args[2] })
    } else if args.len() == 2 && args[0] == "clean"@ {
        Ok(CommandView::Clean { output: args[1] })
    } else if args.len() == 2 && args[0] == "validate"@ {
        Ok(CommandView::Validate { input: args[1] })
    } else if args.len() == 2 {
        Ok(CommandView::Generate { input: args[0], output: args[1] })
    } else {
        Err(diag("JPP0001"@, usage_text(), SourceLocation { file: None, line: 1, column: 1 }))
    }
}

pub open spec fn args_view(args: Seq<String>) -> Seq<Seq<char>> {
    args.map_values(|a: String| a@)
}

pub fn parse_command(args: &Vec<String>) -> (r: JppResult<Command>)
    ensures
        match r {
            Ok(c) => command_of(args_view(args@)) == Ok::<CommandView, DiagnosticView>(c@),
            Err(d) => command_of(args_view(args@)) == Err::<CommandView, DiagnosticView>(d@),
        },
{
    let ghost a = args_view(args@);
    if args.len() == 3 && args[0].eq(&String::from_str("generate")) {
        return Ok(Command::Generate { input: args[1].clone(), output: args[2].clone() });
    }
    if args.len() == 2 && args[0].eq(&String::from_str("clean")) {
        return Ok(Command::Clean { output: args[1].clone() });
    }
    if args.len() == 2 && args[0].eq(&String::from_str("validate")) {
        return Ok(Command::Validate { input: args[1].clone() });
    }
    if args.len() == 2 {
        return Ok(Command::Generate { input: args[0].clone(), output: args[1].clone() });
    }
    Err(
        Diagnostic::new(
            "JPP0001",
            String::from_str(usage()),
            SourceLocation::new(None, 1, 1),
        ),
    )
}

} // verus!
