//! The command that displays the entries of the run log.

use vstd::prelude::*;

verus! {

/// How the entries are written out.
#[derive(Clone, Copy, Debug, PartialEq, Eq, Structural)]
pub enum Format {
    Text,
    Json,
}

/// The template names another format than the two that are known.
#[derive(Clone, Copy, Debug, PartialEq, Eq, Structural)]
pub struct InvalidTemplate {}

/// The format that an output template asks for: `json` for JSON, the
/// empty template for text.
pub open spec fn format_of(template: Seq<char>) -> Option<Format> {
    if template == "json"@ {
        Some(Format::Json)
    } else if template == ""@ {
        Some(Format::Text)
    } else {
        None
    }
}

/// Reads the output template. Only `json` and the empty template are
/// accepted.
pub fn parse_template(template: &String) -> (r: Result<Format, InvalidTemplate>)
    ensures
        match format_of(template@) {
            Some(f) => r == Ok::<Format, InvalidTemplate>(f),
            None => r is Err,
        },
{
    let json = "json".to_owned();
    let empty = "".to_owned();
    if *template == json {
        Ok(Format::Json)
    } else if *template == empty {
        Ok(Format::Text)
    } else {
        Err(InvalidTemplate {  })
    }
}

/// Whether an entry is displayed: the entries of running commands are,
/// unless those of ended commands were asked for, and then only these.
pub fn shows_entry(ended: bool, running: bool) -> (r: bool)
    ensures
        r == (ended != running),
{
    ended != running
}

pub fn name() -> (r: &'static str)
    ensures
        r@ == "debugrunlog"@,
{
    "debugrunlog"
}

pub fn doc() -> (r: &'static str)
    ensures
        r@ == "display runlog entries"@,
{
    "display runlog entries"
}

} // verus!
