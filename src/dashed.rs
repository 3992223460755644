//! Notes in the dashed layout: a line `---`, a question opened by `Q:`, a
//! line `---`, an answer opened by `A:`, and a closing `---`.
//!
//! A card starts at each `---` followed by a newline, optional whitespace and
//! `Q:`. The question runs to the first newline, `---`, newline, optional
//! whitespace and `A:` after it; the answer runs to the next newline followed
//! by `---`. Both are trimmed. Scanning goes on after the closing dashes.

use vstd::prelude::*;
use crate::card::Card;
use crate::text::{
    chars_of, find_from, is_ws, is_ws_char, lemma_find_from, occurs_at, occurs_at_exec, slice_of,
    string_of, trim, trimmed,
};

verus! {

/// The first position from `k` on that is not whitespace, or the length.
pub open spec fn skip_ws(s: Seq<char>, k: int) -> int
    decreases s.len() - k,
{
    if 0 <= k < s.len() && is_ws(s[k]) {
        skip_ws(s, k + 1)
    } else {
        k
    }
}

/// Whether the question may end at `j`: a dashed line follows and then the
/// answer marker.
pub open spec fn question_ends_at(s: Seq<char>, j: int) -> bool {
    occurs_at(s, "\n---\n"@, j) && occurs_at(s, "A:"@, skip_ws(s, j + 5))
}

/// The first position from `k` on where the question may end, or -1.
pub open spec fn question_end(s: Seq<char>, k: int) -> int
    decreases s.len() - k,
{
    if k < 0 || k >= s.len() {
        -1
    } else if question_ends_at(s, k) {
        k
    } else {
        question_end(s, k + 1)
    }
}

/// Where the question of a card opening at `i` starts.
pub open spec fn question_start(s: Seq<char>, i: int) -> int {
    skip_ws(s, i + 4) + 2
}

/// Where the answer of a card whose question ends at `j` starts.
pub open spec fn answer_start(s: Seq<char>, j: int) -> int {
    skip_ws(s, j + 5) + 2
}

/// Whether a whole card opens at `i`.
pub open spec fn card_at(s: Seq<char>, i: int) -> bool {
    &&& occurs_at(s, "---\n"@, i)
    &&& occurs_at(s, "Q:"@, skip_ws(s, i + 4))
    &&& question_end(s, question_start(s, i)) >= 0
    &&& find_from(s, "\n---"@, answer_start(s, question_end(s, question_start(s, i)))) >= 0
}

pub proof fn lemma_skip_ws(s: Seq<char>, k: int)
    requires
        0 <= k,
    ensures
        k <= skip_ws(s, k),
        k <= s.len() ==> skip_ws(s, k) <= s.len(),
    decreases s.len() - k,
{
    if 0 <= k < s.len() && is_ws(s[k]) {
        lemma_skip_ws(s, k + 1);
    }
}

pub proof fn lemma_question_end(s: Seq<char>, k: int)
    ensures
        question_end(s, k) == -1 || (k <= question_end(s, k) && question_ends_at(
            s,
            question_end(s, k),
        )),
    decreases s.len() - k,
{
    if !(k < 0 || k >= s.len()) && !question_ends_at(s, k) {
        lemma_question_end(s, k + 1);
    }
}

/// The end of a card that opens at `i`: just after its closing dashes.
pub open spec fn card_end(s: Seq<char>, i: int) -> int {
    find_from(s, "\n---"@, answer_start(s, question_end(s, question_start(s, i)))) + 4
}

/// The question and answer of a card that opens at `i`.
pub open spec fn card_text_at(s: Seq<char>, i: int) -> (Seq<char>, Seq<char>) {
    let qs = question_start(s, i);
    let j = question_end(s, qs);
    let a = answer_start(s, j);
    let k = find_from(s, "\n---"@, a);
    (trim(s.subrange(qs, j)), trim(s.subrange(a, k)))
}

proof fn lemma_card_bounds(s: Seq<char>, i: int)
    requires
        0 <= i,
        card_at(s, i),
    ensures
        i < question_start(s, i) <= question_end(s, question_start(s, i)),
        question_end(s, question_start(s, i)) < answer_start(s, question_end(s, question_start(s, i))),
        answer_start(s, question_end(s, question_start(s, i))) <= card_end(s, i) - 4,
        card_end(s, i) <= s.len(),
{
    let qs = question_start(s, i);
    lemma_skip_ws(s, i + 4);
    lemma_question_end(s, qs);
    let j = question_end(s, qs);
    lemma_skip_ws(s, j + 5);
    let a = answer_start(s, j);
    reveal_strlit("\n---");
    lemma_find_from(s, "\n---"@, a);
    reveal_strlit("---\n");
    reveal_strlit("\n---\n");
}

/// The cards of the dashed layout from position `i` on, in order.
pub open spec fn dashed_from(s: Seq<char>, i: int) -> Seq<(Seq<char>, Seq<char>)>
    decreases s.len() - i,
    via dashed_from_decreases
{
    if i < 0 || i >= s.len() {
        Seq::empty()
    } else if card_at(s, i) {
        seq![card_text_at(s, i)] + dashed_from(s, card_end(s, i))
    } else {
        dashed_from(s, i + 1)
    }
}

#[via_fn]
proof fn dashed_from_decreases(s: Seq<char>, i: int) {
    if 0 <= i < s.len() && card_at(s, i) {
        lemma_card_bounds(s, i);
    }
}

fn occurs(s: &[char], p: &[char], j: usize) -> (r: bool)
    ensures
        r == occurs_at(s@, p@, j as int),
{
    let n = s.len();
    if j > n || p.len() > n - j {
        return false;
    }
    occurs_at_exec(s, p, j)
}

fn ws_skip(s: &[char], k: usize) -> (r: usize)
    requires
        k <= s@.len(),
    ensures
        r as int == skip_ws(s@, k as int),
        k <= r <= s@.len(),
{
    let mut j: usize = k;
    while j < s.len() && is_ws_char(s[j])
        invariant
            k <= j <= s@.len(),
            skip_ws(s@, k as int) == skip_ws(s@, j as int),
        decreases s@.len() - j,
    {
        j = j + 1;
    }
    j
}

fn find_exec(s: &[char], p: &[char], k: usize) -> (r: Option<usize>)
    ensures
        match r {
            Some(j) => j as int == find_from(s@, p@, k as int) && j < s@.len(),
            None => find_from(s@, p@, k as int) == -1,
        },
{
    let mut j: usize = k;
    while j < s.len()
        invariant
            k <= j,
            find_from(s@, p@, k as int) == find_from(s@, p@, j as int),
        decreases s@.len() - j,
    {
        if p.len() > s.len() - j {
            return None;
        }
        if occurs(s, p, j) {
            return Some(j);
        }
        j = j + 1;
    }
    None
}

fn question_end_exec(s: &[char], k: usize, sep: &[char], marker: &[char]) -> (r: Option<usize>)
    requires
        sep@ == "\n---\n"@,
        marker@ == "A:"@,
    ensures
        match r {
            Some(j) => j as int == question_end(s@, k as int) && j < s@.len(),
            None => question_end(s@, k as int) == -1,
        },
{
    proof {
        reveal_strlit("\n---\n");
    }
    let mut j: usize = k;
    while j < s.len()
        invariant
            k <= j,
            sep@ == "\n---\n"@,
            sep@.len() == 5,
            marker@ == "A:"@,
            question_end(s@, k as int) == question_end(s@, j as int),
        decreases s@.len() - j,
    {
        if occurs(s, sep, j) {
            let a = ws_skip(s, j + 5);
            if occurs(s, marker, a) {
                return Some(j);
            }
        }
        j = j + 1;
    }
    None
}

/// Reads every card of a note in the dashed layout, in order.
pub fn extract_markdown_cards(markdown: &str) -> (r: Vec<Card>)
    ensures
        crate::card::card_views(r@) == dashed_from(markdown@, 0),
{
    let s = chars_of(markdown);
    let open = chars_of("---\n");
    let q = chars_of("Q:");
    let sep = chars_of("\n---\n");
    let marker = chars_of("A:");
    let close = chars_of("\n---");
    proof {
        reveal_strlit("---\n");
        reveal_strlit("Q:");
        reveal_strlit("A:");
        reveal_strlit("\n---");
        reveal_strlit("\n---\n");
    }
    let ghost sv = s@;
    let mut cards: Vec<Card> = Vec::new();
    let mut i: usize = 0;
    assert(crate::card::card_views(cards@) + dashed_from(sv, 0) =~= dashed_from(sv, 0));
    while i < s.len()
        invariant
            sv == s@,
            sv == markdown@,
            open@ == "---\n"@,
            q@ == "Q:"@,
            sep@ == "\n---\n"@,
            marker@ == "A:"@,
            close@ == "\n---"@,
            open@.len() == 4,
            q@.len() == 2,
            marker@.len() == 2,
            sep@.len() == 5,
            close@.len() == 4,
            i <= s@.len(),
            dashed_from(sv, 0) == crate::card::card_views(cards@) + dashed_from(sv, i as int),
        decreases s@.len() - i,
    {
        let mut next = i + 1;
        if occurs(s.as_slice(), open.as_slice(), i) {
            let qm = ws_skip(s.as_slice(), i + 4);
            if occurs(s.as_slice(), q.as_slice(), qm) {
                let qs = qm + 2;
                if let Some(j) = question_end_exec(s.as_slice(), qs, sep.as_slice(), marker.as_slice()) {
                    proof {
                        lemma_question_end(sv, qs as int);
                    }
                    let am = ws_skip(s.as_slice(), j + 5);
                    let a = am + 2;
                    if let Some(k) = find_exec(s.as_slice(), close.as_slice(), a) {
                        proof {
                            lemma_find_from(sv, close@, a as int);
                            lemma_card_bounds(sv, i as int);
                        }
                        assert(card_at(sv, i as int));
                        let question = trimmed(slice_of(s.as_slice(), qs, j).as_slice());
                        let answer = trimmed(slice_of(s.as_slice(), a, k).as_slice());
                        let card = Card {
                            front: string_of(question.as_slice()),
                            back: string_of(answer.as_slice()),
                        };
                        let ghost prev = cards@;
                        cards.push(card);
                        assert(crate::card::card_views(cards@) =~= crate::card::card_views(prev).push(
                            card_text_at(sv, i as int),
                        ));
                        assert(crate::card::card_views(cards@) + dashed_from(sv, k + 4)
                            =~= crate::card::card_views(prev) + dashed_from(sv, i as int));
                        next = k + 4;
                    }
                }
            }
        }
        i = next;
    }
    cards
}

} // verus!
