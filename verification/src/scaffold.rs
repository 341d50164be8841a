//! The start of a new bank: the name of its directory and the text of its
//! first manifest.

use vstd::prelude::*;
use vstd::string::*;

verus! {

/// The identifier of the bank `name` by `author`: both, with a dot between
/// them.
pub open spec fn bank_id(author: Seq<char>, name: Seq<char>) -> Seq<char> {
    author + "."@ + name
}

/// The identifier of a bank, which is also the name of its directory.
pub fn bank_dir_name(author: &str, name: &str) -> (id: String)
    ensures
        id@ == bank_id(author@, name@),
{
    let mut id = author.to_string();
    id.append(".");
    id.append(name);
    id
}

/// The text of the manifest of a new bank: a bank section with the name, the
/// author, the description, the first version and the access, and no
/// triggers.
pub open spec fn manifest_text(
    name: Seq<char>,
    author: Seq<char>,
    description: Seq<char>,
    access: Seq<char>,
) -> Seq<char> {
    "[bank]\nname = \""@ + name + "\"\nauthor = \""@ + author + "\"\ndescription = \""@ + description
        + "\"\nversion = \"0.0.1\"\naccess = \""@ + access + "\"\n"@
}

/// The manifest of a new bank.
pub fn new_manifest(name: &str, author: &str, description: &str, access: &str) -> (text: String)
    ensures
        text@ == manifest_text(name@, author@, description@, access@),
{
    let mut text = "[bank]\nname = \"".to_string();
    text.append(name);
    text.append("\"\nauthor = \"");
    text.append(author);
    text.append("\"\ndescription = \"");
    text.append(description);
    text.append("\"\nversion = \"0.0.1\"\naccess = \"");
    text.append(access);
    text.append("\"\n");
    text
}

} // verus!
