//! What the program writes for a file it has read: the decisions of the
//! command line, apart from reading and writing.
use vstd::prelude::*;

use crate::headers::{HeaderModel, HeaderValues};
use crate::{decypher_str, spec_decypher, DecypherError, DecypherFailure};

verus! {

/// Represents combinations of `quiet` and `verbatim` that are actually valid
#[derive(Debug, Clone, Copy, PartialEq, Eq, Structural)]
pub enum OutputBehavior {
    /// Output the file content verbatim and do not print any headers
    Verbatim,
    /// Output the decrypted file content, but do not print any headers
    DecryptQuiet,
    /// Output the decrypted file content and print headers
    DecryptWithHeaders,
}

/// The behavior the flags ask for: `verbatim` wins (there are no headers to
/// show without decrypting), then `quiet` leaves the headers out.
pub open spec fn spec_output_behavior(verbatim: bool, quiet: bool) -> OutputBehavior {
    if verbatim {
        OutputBehavior::Verbatim
    } else if quiet {
        OutputBehavior::DecryptQuiet
    } else {
        OutputBehavior::DecryptWithHeaders
    }
}

/// The behavior the `verbatim` and `quiet` flags ask for (a real file is
/// never copied verbatim, so its `verbatim` is `false`).
pub fn output_behavior(verbatim: bool, quiet: bool) -> (res: OutputBehavior)
    ensures
        res == spec_output_behavior(verbatim, quiet),
{
    match (verbatim, quiet) {
        (true, _) => OutputBehavior::Verbatim,
        (false, true) => OutputBehavior::DecryptQuiet,
        (false, false) => OutputBehavior::DecryptWithHeaders,
    }
}

/// What the program shows and writes: the header values, when they are shown,
/// and the text to write.
#[derive(Debug)]
pub struct Output {
    pub headers: Option<HeaderValues>,
    pub text: String,
}

/// The output as plain values.
pub struct OutputModel {
    pub headers: Option<HeaderModel>,
    pub text: Seq<char>,
}

impl View for Output {
    type V = OutputModel;

    open spec fn view(&self) -> OutputModel {
        OutputModel {
            headers: match self.headers {
                Some(h) => Some(h@),
                None => None,
            },
            text: self.text@,
        }
    }
}

/// The output for `input` under `behavior`.
pub open spec fn spec_produce_output(behavior: OutputBehavior, input: Seq<char>) -> Result<
    OutputModel,
    DecypherFailure,
> {
    match behavior {
        OutputBehavior::Verbatim => Ok(OutputModel { headers: None, text: input }),
        _ => match spec_decypher(input) {
            Err(e) => Err(e),
            Ok(d) => Ok(
                OutputModel {
                    headers: if behavior == OutputBehavior::DecryptWithHeaders {
                        Some(d.header_values)
                    } else {
                        None
                    },
                    text: d.body,
                },
            ),
        },
    }
}

/// The output for `input` under `behavior`: the input itself when verbatim,
/// otherwise its decrypted body, with the header values when they are shown.
pub fn produce_output(behavior: OutputBehavior, input: String) -> (res: Result<Output, DecypherError>)
    ensures
        match res {
            Ok(o) => spec_produce_output(behavior, input@) == Ok::<OutputModel, DecypherFailure>(
                o@,
            ),
            Err(e) => spec_produce_output(behavior, input@) == Err::<OutputModel, DecypherFailure>(
                e@,
            ),
        },
{
    match behavior {
        OutputBehavior::Verbatim => Ok(Output { headers: None, text: input }),
        OutputBehavior::DecryptQuiet => match decypher_str(input.as_str()) {
            Ok(d) => Ok(Output { headers: None, text: d.body }),
            Err(e) => Err(e),
        },
        OutputBehavior::DecryptWithHeaders => match decypher_str(input.as_str()) {
            Ok(d) => Ok(Output { headers: Some(d.header_values), text: d.body }),
            Err(e) => Err(e),
        },
    }
}

} // verus!
