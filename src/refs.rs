//! Formula and image references inside card text.
//!
//! A formula is the text between a `$$` and the nearest following `$$` on the
//! same line. An image is `![description](locator)`: the description runs to
//! the first `](`, the locator to the first `)` after it; both may span
//! lines. References are found from left to right and a found reference is
//! not searched again for another one.

use vstd::prelude::*;
use crate::text::{slice_of, views};

verus! {

pub open spec fn delim_at(s: Seq<char>, i: int) -> bool {
    0 <= i && i + 1 < s.len() && s[i] == '$' && s[i + 1] == '$'
}

/// Where the formula whose text starts at `k` is closed, or -1 when a
/// newline or the end of the text comes first.
pub open spec fn formula_close(s: Seq<char>, k: int) -> int
    decreases s.len() - k,
{
    if k < 0 || k + 1 >= s.len() {
        -1
    } else if delim_at(s, k) {
        k
    } else if s[k] == '\n' {
        -1
    } else {
        formula_close(s, k + 1)
    }
}

pub proof fn lemma_formula_close(s: Seq<char>, k: int)
    ensures
        formula_close(s, k) == -1 || (k <= formula_close(s, k) && delim_at(
            s,
            formula_close(s, k),
        )),
    decreases s.len() - k,
{
    if !(k < 0 || k + 1 >= s.len()) && !delim_at(s, k) && s[k] != '\n' {
        lemma_formula_close(s, k + 1);
    }
}

/// The formulas from position `i` on, in order.
pub open spec fn formulas_from(s: Seq<char>, i: int) -> Seq<Seq<char>>
    decreases s.len() - i,
    via formulas_from_decreases
{
    if i < 0 || i + 1 >= s.len() {
        Seq::empty()
    } else if delim_at(s, i) && formula_close(s, i + 2) >= 0 {
        let c = formula_close(s, i + 2);
        seq![s.subrange(i + 2, c)] + formulas_from(s, c + 2)
    } else {
        formulas_from(s, i + 1)
    }
}

#[via_fn]
proof fn formulas_from_decreases(s: Seq<char>, i: int) {
    lemma_formula_close(s, i + 2);
}

/// The formulas of a text, in order.
pub open spec fn formulas(s: Seq<char>) -> Seq<Seq<char>> {
    formulas_from(s, 0)
}

/// The first position from `k` on where `c0` is followed by `c1`, or -1.
pub open spec fn find_pair(s: Seq<char>, c0: char, c1: char, k: int) -> int
    decreases s.len() - k,
{
    if k < 0 || k + 1 >= s.len() {
        -1
    } else if s[k] == c0 && s[k + 1] == c1 {
        k
    } else {
        find_pair(s, c0, c1, k + 1)
    }
}

/// The first position from `k` on that holds `c`, or -1.
pub open spec fn find_char(s: Seq<char>, c: char, k: int) -> int
    decreases s.len() - k,
{
    if k < 0 || k >= s.len() {
        -1
    } else if s[k] == c {
        k
    } else {
        find_char(s, c, k + 1)
    }
}

pub proof fn lemma_find_pair(s: Seq<char>, c0: char, c1: char, k: int)
    ensures
        find_pair(s, c0, c1, k) == -1 || (k <= find_pair(s, c0, c1, k) && find_pair(s, c0, c1, k)
            + 1 < s.len()),
    decreases s.len() - k,
{
    if !(k < 0 || k + 1 >= s.len()) && !(s[k] == c0 && s[k + 1] == c1) {
        lemma_find_pair(s, c0, c1, k + 1);
    }
}

pub proof fn lemma_find_char(s: Seq<char>, c: char, k: int)
    ensures
        find_char(s, c, k) == -1 || (k <= find_char(s, c, k) && find_char(s, c, k) < s.len()),
    decreases s.len() - k,
{
    if !(k < 0 || k >= s.len()) && s[k] != c {
        lemma_find_char(s, c, k + 1);
    }
}

/// Where the description of an image that opens at `i` ends, or -1.
pub open spec fn image_mid(s: Seq<char>, i: int) -> int {
    find_pair(s, ']', '(', i + 2)
}

/// Where the locator of an image that opens at `i` ends, or -1.
pub open spec fn image_end(s: Seq<char>, i: int) -> int {
    if image_mid(s, i) < 0 {
        -1
    } else {
        find_char(s, ')', image_mid(s, i) + 2)
    }
}

pub open spec fn image_at(s: Seq<char>, i: int) -> bool {
    0 <= i && i + 1 < s.len() && s[i] == '!' && s[i + 1] == '[' && image_end(s, i) >= 0
}

/// The image locators from position `i` on, in order.
pub open spec fn images_from(s: Seq<char>, i: int) -> Seq<Seq<char>>
    decreases s.len() - i,
    via images_from_decreases
{
    if i < 0 || i + 1 >= s.len() {
        Seq::empty()
    } else if image_at(s, i) {
        seq![s.subrange(image_mid(s, i) + 2, image_end(s, i))] + images_from(
            s,
            image_end(s, i) + 1,
        )
    } else {
        images_from(s, i + 1)
    }
}

#[via_fn]
proof fn images_from_decreases(s: Seq<char>, i: int) {
    lemma_find_pair(s, ']', '(', i + 2);
    if image_mid(s, i) >= 0 {
        lemma_find_char(s, ')', image_mid(s, i) + 2);
    }
}

/// The image locators of a text, in order.
pub open spec fn images(s: Seq<char>) -> Seq<Seq<char>> {
    images_from(s, 0)
}

fn close_of(s: &[char], k: usize) -> (r: Option<usize>)
    ensures
        match r {
            Some(c) => c as int == formula_close(s@, k as int),
            None => formula_close(s@, k as int) == -1,
        },
{
    let mut j: usize = k;
    while j < s.len()
        invariant
            k <= j,
            formula_close(s@, k as int) == formula_close(s@, j as int),
        decreases s@.len() - j,
    {
        if j + 1 >= s.len() {
            return None;
        }
        if s[j] == '$' && s[j + 1] == '$' {
            return Some(j);
        }
        if s[j] == '\n' {
            return None;
        }
        j = j + 1;
    }
    None
}

fn pair_from(s: &[char], c0: char, c1: char, k: usize) -> (r: Option<usize>)
    ensures
        match r {
            Some(c) => c as int == find_pair(s@, c0, c1, k as int),
            None => find_pair(s@, c0, c1, k as int) == -1,
        },
{
    let mut j: usize = k;
    while j < s.len()
        invariant
            k <= j,
            find_pair(s@, c0, c1, k as int) == find_pair(s@, c0, c1, j as int),
        decreases s@.len() - j,
    {
        if j + 1 >= s.len() {
            return None;
        }
        if s[j] == c0 && s[j + 1] == c1 {
            return Some(j);
        }
        j = j + 1;
    }
    None
}

fn char_from(s: &[char], c: char, k: usize) -> (r: Option<usize>)
    ensures
        match r {
            Some(p) => p as int == find_char(s@, c, k as int),
            None => find_char(s@, c, k as int) == -1,
        },
{
    let mut j: usize = k;
    while j < s.len()
        invariant
            k <= j,
            find_char(s@, c, k as int) == find_char(s@, c, j as int),
        decreases s@.len() - j,
    {
        if s[j] == c {
            return Some(j);
        }
        j = j + 1;
    }
    None
}

/// The formulas of the text, in order.
pub fn formulas_in(s: &[char]) -> (r: Vec<Vec<char>>)
    ensures
        views(r@) == formulas(s@),
{
    let mut out: Vec<Vec<char>> = Vec::new();
    let mut i: usize = 0;
    assert(views(out@) + formulas_from(s@, 0) =~= formulas_from(s@, 0));
    while i < s.len() && i + 1 < s.len()
        invariant
            i <= s@.len(),
            formulas_from(s@, 0) == views(out@) + formulas_from(s@, i as int),
        decreases s@.len() - i,
    {
        let mut found = false;
        if s[i] == '$' && s[i + 1] == '$' {
            if let Some(c) = close_of(s, i + 2) {
                proof {
                    lemma_formula_close(s@, i + 2);
                }
                let f = slice_of(s, i + 2, c);
                let ghost prev = out@;
                out.push(f);
                assert(views(out@) =~= views(prev).push(f@));
                assert(views(out@) + formulas_from(s@, c + 2) =~= views(prev) + formulas_from(
                    s@,
                    i as int,
                ));
                i = c + 2;
                found = true;
            }
        }
        if !found {
            i = i + 1;
        }
    }
    assert(views(out@) + formulas_from(s@, i as int) =~= views(out@));
    out
}

/// The image locators of the text, in order.
pub fn images_in(s: &[char]) -> (r: Vec<Vec<char>>)
    ensures
        views(r@) == images(s@),
{
    let mut out: Vec<Vec<char>> = Vec::new();
    let mut i: usize = 0;
    assert(views(out@) + images_from(s@, 0) =~= images_from(s@, 0));
    while i < s.len() && i + 1 < s.len()
        invariant
            i <= s@.len(),
            images_from(s@, 0) == views(out@) + images_from(s@, i as int),
        decreases s@.len() - i,
    {
        let mut found = false;
        if s[i] == '!' && s[i + 1] == '[' {
            if let Some(m) = pair_from(s, ']', '(', i + 2) {
                proof {
                    lemma_find_pair(s@, ']', '(', i + 2);
                }
                if let Some(e) = char_from(s, ')', m + 2) {
                    proof {
                        lemma_find_char(s@, ')', m + 2);
                    }
                    let link = slice_of(s, m + 2, e);
                    let ghost prev = out@;
                    out.push(link);
                    assert(views(out@) =~= views(prev).push(link@));
                    assert(views(out@) + images_from(s@, e + 1) =~= views(prev) + images_from(
                        s@,
                        i as int,
                    ));
                    i = e + 1;
                    found = true;
                }
            }
        }
        if !found {
            i = i + 1;
        }
    }
    assert(views(out@) + images_from(s@, i as int) =~= views(out@));
    out
}

} // verus!
