use crate::error::Error;
use crate::format::Format;
use crate::text::same_text;
use vstd::prelude::*;

verus! {

/// Where a document is read from or written to.
#[derive(Debug, PartialEq, Eq)]
pub enum Endpoint {
    /// Standard input for a source, standard output for a destination.
    Standard,
    /// The file at this path.
    File(String),
}

/// The endpoint that `path` selects.
pub open spec fn endpoint_of(path: Option<Seq<char>>) -> Option<Seq<char>> {
    match path {
        None => None,
        Some(p) => if p == "-"@ {
            None
        } else {
            Some(p)
        },
    }
}

impl Endpoint {
    /// The path of the file, if the endpoint is one.
    pub open spec fn path(&self) -> Option<Seq<char>> {
        match self {
            Endpoint::Standard => None,
            Endpoint::File(p) => Some(p@),
        }
    }

    /// Selects the endpoint for the path given on the command line: the
    /// standard stream where there is none or where it is `-`, else the
    /// file at that path.
    pub fn select(path: Option<String>) -> (endpoint: Endpoint)
        ensures
            endpoint.path() == endpoint_of(
                match path {
                    Some(p) => Some(p@),
                    None => None,
                },
            ),
    {
        match path {
            None => Endpoint::Standard,
            Some(p) => if same_text(p.as_str(), "-") {
                Endpoint::Standard
            } else {
                Endpoint::File(p)
            },
        }
    }
}

/// What was asked for on the command line.
pub struct Request {
    /// List the formats and do nothing else.
    pub list_formats: bool,
    /// Write a shell completion script and do nothing else.
    pub completion: bool,
    /// The format of the input.
    pub from_format: Option<Format>,
    /// The format of the output.
    pub to_format: Option<Format>,
    /// The path of the input, if one was given.
    pub input: Option<String>,
    /// The path of the output, if one was given.
    pub output: Option<String>,
}

/// What is to be done for a request.
#[derive(Debug, PartialEq, Eq)]
pub enum Action {
    /// Print the list of formats.
    ListFormats,
    /// Write the completion script.
    GenerateCompletion,
    /// Read a document of one format and write it in another.
    Convert { from: Format, input: Endpoint, to: Format, output: Endpoint },
}

/// What is said where no input format was chosen.
pub open spec fn missing_from_format() -> Seq<char> {
    "Missing input format"@
}

/// What is said where no output format was chosen.
pub open spec fn missing_to_format() -> Seq<char> {
    "Missing output format"@
}

/// Decides what to do for `request`, before anything is opened.
///
/// Listing the formats comes before everything else, then the completion
/// script. A conversion needs both formats: where one is missing the
/// request is a usage error, the input format being looked at first.
pub fn plan(request: Request) -> (result: Result<Action, Error>)
    ensures
        request.list_formats ==> result == Ok::<Action, Error>(Action::ListFormats),
        !request.list_formats && request.completion ==> result == Ok::<Action, Error>(
            Action::GenerateCompletion,
        ),
        !request.list_formats && !request.completion ==> match result {
            Ok(action) => {
                &&& action matches Action::Convert { from, input, to, output }
                &&& request.from_format == Some(from)
                &&& request.to_format == Some(to)
                &&& input.path() == endpoint_of(
                    match request.input {
                        Some(p) => Some(p@),
                        None => None,
                    },
                )
                &&& output.path() == endpoint_of(
                    match request.output {
                        Some(p) => Some(p@),
                        None => None,
                    },
                )
            },
            Err(e) => {
                &&& e matches Error::Usage(message)
                &&& request.from_format is None ==> message@ == missing_from_format()
                &&& request.from_format is Some ==> request.to_format is None && message@
                    == missing_to_format()
            },
        },
{
    if request.list_formats {
        return Ok(Action::ListFormats);
    }
    if request.completion {
        return Ok(Action::GenerateCompletion);
    }
    let from = match request.from_format {
        Some(format) => format,
        None => {
            return Err(Error::Usage("Missing input format".to_owned()));
        },
    };
    let to = match request.to_format {
        Some(format) => format,
        None => {
            return Err(Error::Usage("Missing output format".to_owned()));
        },
    };
    let input = Endpoint::select(request.input);
    let output = Endpoint::select(request.output);
    Ok(Action::Convert { from, input, to, output })
}

} // verus!
