//! Names of the decks that the notes become.

use vstd::prelude::*;
use crate::text::{chars_of, replace_all, replaced, string_of};

verus! {

/// The deck of a note file is named by its path, with each path separator
/// written `::` and the `.anki.md` suffix removed wherever it occurs.
pub open spec fn deck_name_of(filename: Seq<char>, separator: char) -> Seq<char> {
    replace_all(replace_all(filename, seq![separator], "::"@), ".anki.md"@, Seq::empty())
}

/// The name of the deck for the note file.
pub fn deck_name(filename: &str, separator: char) -> (r: String)
    ensures
        r@ == deck_name_of(filename@, separator),
{
    let f = chars_of(filename);
    let mut sep: Vec<char> = Vec::new();
    sep.push(separator);
    assert(sep@ =~= seq![separator]);
    let colons = chars_of("::");
    let step = replaced(f.as_slice(), sep.as_slice(), colons.as_slice());
    let suffix = chars_of(".anki.md");
    let nothing: Vec<char> = Vec::new();
    assert(nothing@ =~= Seq::<char>::empty());
    let name = replaced(step.as_slice(), suffix.as_slice(), nothing.as_slice());
    string_of(name.as_slice())
}

} // verus!
