//! Parsing of input lines into commands.
//!
//! A line is split into tokens (see [`crate::text::tokens_of`]); the
//! keywords `add`, `to`, `list` and `all` match case-insensitively. A
//! line that fits neither command shape parses to nothing — that is an
//! ordinary outcome, not an error.

use vstd::prelude::*;

use crate::text::canon_of;
use crate::text::canonicalize;
use crate::text::lemma_split_spaces_len;
use crate::text::lower_of;
use crate::text::lowercase;
use crate::text::str_eq;
use crate::text::tokenize;
use crate::text::tokens_of;

verus! {

/// A request to add employee `name` to `department`; the department is
/// already canonical when the command comes out of the parser.
pub struct AddCommand {
    pub name: String,
    pub department: String,
}

impl View for AddCommand {
    type V = (Seq<char>, Seq<char>);

    open spec fn view(&self) -> (Seq<char>, Seq<char>) {
        (self.name@, self.department@)
    }
}

/// A query: either the whole roster, or one department, given in
/// canonical form.
pub enum ListCommand {
    All,
    ByDept { dept: String },
}

/// What parsing an `add` line yields: the name token and the
/// canonicalized department token, or nothing where the line does not
/// have the shape `add <name> to <department>` (extra tokens are
/// ignored).
pub open spec fn spec_parse_add(line: Seq<char>) -> Option<(Seq<char>, Seq<char>)> {
    let toks = tokens_of(line);
    if toks.len() >= 1 && lower_of(toks[0]) == "add"@ {
        if toks.len() >= 4 && lower_of(toks[2]) == "to"@ {
            Some((toks[1], canon_of(toks[3])))
        } else {
            None
        }
    } else {
        None
    }
}

/// Whether a line has the shape `list all` (extra tokens ignored).
pub open spec fn spec_list_all(line: Seq<char>) -> bool {
    let toks = tokens_of(line);
    toks.len() >= 2 && lower_of(toks[0]) == "list"@ && lower_of(toks[1]) == "all"@
}

/// Whether a line has the shape `list <department>` with a department
/// other than the `all` keyword (extra tokens ignored).
pub open spec fn spec_list_dept(line: Seq<char>) -> bool {
    let toks = tokens_of(line);
    toks.len() >= 2 && lower_of(toks[0]) == "list"@ && lower_of(toks[1]) != "all"@
}

/// Parses `add <name> to <department>`, with case-insensitive
/// keywords. The name token is kept verbatim; the department token is
/// canonicalized (an empty token canonicalizes to an empty string
/// rather than failing). Any line of another shape yields `None`.
pub fn parse_add_command(command: &String) -> (r: Option<AddCommand>)
    ensures
        match r {
            Some(cmd) => spec_parse_add(command@) == Some(cmd@),
            None => spec_parse_add(command@) is None,
        },
{
    let toks = tokenize(command.as_str());
    proof {
        lemma_split_spaces_len(command@);
    }
    let kw = lowercase(toks[0].as_str());
    if !str_eq(kw.as_str(), "add") {
        return None;
    }
    if toks.len() < 4 {
        return None;
    }
    let prep = lowercase(toks[2].as_str());
    if !str_eq(prep.as_str(), "to") {
        return None;
    }
    let name = toks[1].clone();
    let department = canonicalize(toks[3].as_str());
    Some(AddCommand { name, department })
}

/// Parses `list all` or `list <department>`, with case-insensitive
/// keywords; the department token is canonicalized. Any line of
/// another shape yields `None`.
pub fn parse_list_command(command: &String) -> (r: Option<ListCommand>)
    ensures
        match r {
            Some(ListCommand::All) => spec_list_all(command@),
            Some(ListCommand::ByDept { dept }) => spec_list_dept(command@) && dept@ == canon_of(
                tokens_of(command@)[1],
            ),
            None => !spec_list_all(command@) && !spec_list_dept(command@),
        },
{
    let toks = tokenize(command.as_str());
    proof {
        lemma_split_spaces_len(command@);
    }
    let kw = lowercase(toks[0].as_str());
    if !str_eq(kw.as_str(), "list") {
        return None;
    }
    if toks.len() < 2 {
        return None;
    }
    let lowered = lowercase(toks[1].as_str());
    if str_eq(lowered.as_str(), "all") {
        return Some(ListCommand::All);
    }
    let dept = canonicalize(toks[1].as_str());
    Some(ListCommand::ByDept { dept })
}

} // verus!
