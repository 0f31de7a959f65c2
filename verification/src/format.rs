use crate::error::Error;
use crate::text::same_text;
use vstd::prelude::*;
use vstd::string::*;

verus! {

/// The formats between which values are converted.
#[derive(Debug, Clone, Copy, PartialEq, Eq, Structural)]
pub enum Format {
    /// JavaScript Object Notation.
    Json,
    /// Python's serialization format.
    Pickle,
    /// Property list, as XML.
    Plist,
    /// Property list, in its binary form.
    PlistB,
    /// Tom's Obvious, Minimal Language.
    Toml,
    /// YAML Ain't Markup Language.
    Yaml,
}

/// The format that goes by the name `name`, if there is one.
pub open spec fn format_named(name: Seq<char>) -> Option<Format> {
    if name == "json"@ {
        Some(Format::Json)
    } else if name == "pickle"@ {
        Some(Format::Pickle)
    } else if name == "plist"@ {
        Some(Format::Plist)
    } else if name == "plistb"@ {
        Some(Format::PlistB)
    } else if name == "toml"@ {
        Some(Format::Toml)
    } else if name == "yaml"@ {
        Some(Format::Yaml)
    } else {
        None
    }
}

/// What is said of a name that is no format's.
pub open spec fn illegal_format(name: Seq<char>) -> Seq<char> {
    "Illegal format: "@ + name
}

impl Format {
    /// The name by which the format is selected.
    pub open spec fn identifier(self) -> Seq<char> {
        match self {
            Format::Json => "json"@,
            Format::Pickle => "pickle"@,
            Format::Plist => "plist"@,
            Format::PlistB => "plistb"@,
            Format::Toml => "toml"@,
            Format::Yaml => "yaml"@,
        }
    }

    /// The name by which the format is selected.
    pub fn name(self) -> (text: &'static str)
        ensures
            text@ == self.identifier(),
    {
        match self {
            Format::Json => "json",
            Format::Pickle => "pickle",
            Format::Plist => "plist",
            Format::PlistB => "plistb",
            Format::Toml => "toml",
            Format::Yaml => "yaml",
        }
    }

    /// Finds the format that goes by `name`. The set of formats is closed:
    /// any other name is a usage error that quotes it.
    pub fn from_str(name: &str) -> (result: Result<Format, Error>)
        ensures
            match result {
                Ok(format) => format_named(name@) == Some(format),
                Err(e) => {
                    &&& format_named(name@) is None
                    &&& e matches Error::Usage(message)
                    &&& message@ == illegal_format(name@)
                },
            },
    {
        if same_text(name, "json") {
            Ok(Format::Json)
        } else if same_text(name, "pickle") {
            Ok(Format::Pickle)
        } else if same_text(name, "plist") {
            Ok(Format::Plist)
        } else if same_text(name, "plistb") {
            Ok(Format::PlistB)
        } else if same_text(name, "toml") {
            Ok(Format::Toml)
        } else if same_text(name, "yaml") {
            Ok(Format::Yaml)
        } else {
            let mut message = "Illegal format: ".to_owned();
            message.append(name);
            Err(Error::Usage(message))
        }
    }
}

/// The name of a format selects that format and no other.
pub proof fn name_selects_format(format: Format)
    ensures
        format_named(format.identifier()) == Some(format),
{
    reveal_strlit("json");
    reveal_strlit("pickle");
    reveal_strlit("plist");
    reveal_strlit("plistb");
    reveal_strlit("toml");
    reveal_strlit("yaml");
    assert("json"@.len() == 4 && "json"@[0] == 'j');
    assert("pickle"@.len() == 6);
    assert("plist"@.len() == 5);
    assert("plistb"@.len() == 6 && "plistb"@[1] == 'l');
    assert("pickle"@[1] == 'i');
    assert("toml"@.len() == 4 && "toml"@[0] == 't');
    assert("yaml"@.len() == 4 && "yaml"@[0] == 'y');
}

} // verus!
