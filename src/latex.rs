//! The typesetting document that a formula is rendered from.

use vstd::prelude::*;
use crate::text::{chars_of, push_all, string_of};

verus! {

/// A standalone document that typesets the formula in inline math mode,
/// large, and in white when `dark_mode` is set.
pub open spec fn latex_source(formula: Seq<char>, dark_mode: bool) -> Seq<char> {
    "\\documentclass{standalone}\n"@ + "\\usepackage{amsmath,amssymb,amsthm,xcolor}\n"@
        + "\\begin{document}\n"@ + "\\Large\n"@ + (if dark_mode {
        "\\color{white}\n"@
    } else {
        Seq::<char>::empty()
    }) + seq!['$'] + formula + "$\n"@ + "\\end{document}\n"@
}

fn push_str(out: &mut Vec<char>, s: &str)
    ensures
        final(out)@ == old(out)@ + s@,
{
    let c = chars_of(s);
    push_all(out, c.as_slice());
}

/// The document for the formula.
pub fn latex_document(formula: &str, dark_mode: bool) -> (r: String)
    ensures
        r@ == latex_source(formula@, dark_mode),
{
    let mut out: Vec<char> = Vec::new();
    push_str(&mut out, "\\documentclass{standalone}\n");
    push_str(&mut out, "\\usepackage{amsmath,amssymb,amsthm,xcolor}\n");
    push_str(&mut out, "\\begin{document}\n");
    push_str(&mut out, "\\Large\n");
    if dark_mode {
        push_str(&mut out, "\\color{white}\n");
    }
    out.push('$');
    push_str(&mut out, formula);
    push_str(&mut out, "$\n");
    push_str(&mut out, "\\end{document}\n");
    assert(out@ =~= latex_source(formula@, dark_mode));
    string_of(out.as_slice())
}

} // verus!
