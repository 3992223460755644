//! Cards and the note grammar they are read from.
//!
//! A note is read line by line. A line is quoted when its first character
//! after leading whitespace is `>`; its content is what is left once
//! whitespace, every leading `>` and whitespace again are stripped. A card
//! block starts at a quoted line whose content begins with `q:` or `Q:` and
//! runs to the end of that run of consecutive quoted lines; it is a card only
//! if a later line of the run begins with `a:` or `A:`. Within a block empty
//! contents are dropped; the first answer line splits the block into front and
//! back, the two markers are stripped, and each side's lines are joined with
//! newlines. Blocks without an answer line are skipped.

use vstd::prelude::*;
use crate::refs::{formulas, formulas_in, images, images_in};
use crate::text::{
    chars_of, copied, join_lines, joined, lines_of, push_strings, replace_all, replaced,
    split_lines, string_of, string_views, strip_quotes, trim, trimmed, unquoted, views,
};

verus! {

/// What comrak renders from a markdown text with the given extensions.
pub uninterp spec fn html_of(md: Seq<char>, tables: bool, strikethrough: bool) -> Seq<char>;

/// Relies on `comrak::markdown_to_html`: renders CommonMark to HTML with the
/// table and strikethrough extensions switched as asked; the output depends
/// on the text and these options alone.
#[verifier::external_body]
fn markdown_to_html(md: &str, tables: bool, strikethrough: bool) -> (r: String)
    ensures
        r@ == html_of(md@, tables, strikethrough),
{
    let mut options = comrak::ComrakOptions::default();
    options.extension.table = tables;
    options.extension.strikethrough = strikethrough;
    comrak::markdown_to_html(md, &options)
}

/// A formula as it stands in card text: between two `$$`.
pub open spec fn delimited(f: Seq<char>) -> Seq<char> {
    seq!['$', '$'] + f + seq!['$', '$']
}

/// A question and its answer.
pub struct Card {
    pub front: String,
    pub back: String,
}

impl View for Card {
    type V = (Seq<char>, Seq<char>);

    open spec fn view(&self) -> (Seq<char>, Seq<char>) {
        (self.front@, self.back@)
    }
}

/// The views of a sequence of cards.
pub open spec fn card_views(cs: Seq<Card>) -> Seq<(Seq<char>, Seq<char>)> {
    cs.map_values(|c: Card| c@)
}

pub open spec fn is_quoted(line: Seq<char>) -> bool {
    trim(line).len() > 0 && trim(line)[0] == '>'
}

pub open spec fn line_content(line: Seq<char>) -> Seq<char> {
    trim(strip_quotes(trim(line)))
}

/// Whether `c` begins with the marker letter, in either case, and a colon.
pub open spec fn has_marker(c: Seq<char>, lower: char, upper: char) -> bool {
    c.len() >= 2 && (c[0] == lower || c[0] == upper) && c[1] == ':'
}

pub open spec fn is_question_content(c: Seq<char>) -> bool {
    has_marker(c, 'q', 'Q')
}

pub open spec fn is_answer_content(c: Seq<char>) -> bool {
    has_marker(c, 'a', 'A')
}

/// The content with its two-character marker and the whitespace after it removed.
pub open spec fn strip_marker(c: Seq<char>) -> Seq<char> {
    trim(c.skip(2))
}

/// The end of the run of quoted lines that starts at `i`.
pub open spec fn run_end(ls: Seq<Seq<char>>, i: int) -> int
    decreases ls.len() - i,
{
    if 0 <= i < ls.len() && is_quoted(ls[i]) {
        run_end(ls, i + 1)
    } else {
        i
    }
}

pub open spec fn answer_between(ls: Seq<Seq<char>>, i: int, e: int) -> bool {
    exists|j: int| i < j < e && #[trigger] is_answer_content(line_content(ls[j]))
}

/// Whether a card block starts at line `i`.
pub open spec fn starts_card(ls: Seq<Seq<char>>, i: int) -> bool {
    is_quoted(ls[i]) && is_question_content(line_content(ls[i])) && answer_between(
        ls,
        i,
        run_end(ls, i),
    )
}

/// The non-empty contents of the lines, in order.
pub open spec fn kept(block: Seq<Seq<char>>) -> Seq<Seq<char>>
    decreases block.len(),
{
    if block.len() == 0 {
        Seq::<Seq<char>>::empty()
    } else {
        let prev = kept(block.drop_last());
        if line_content(block.last()).len() > 0 {
            prev.push(line_content(block.last()))
        } else {
            prev
        }
    }
}

/// The index of the first answer content, or the length when there is none.
pub open spec fn first_answer(cs: Seq<Seq<char>>) -> int
    decreases cs.len(),
{
    if cs.len() == 0 {
        0
    } else if is_answer_content(cs[0]) {
        0
    } else {
        1 + first_answer(cs.drop_first())
    }
}

/// Front and back of the card that a block makes.
pub open spec fn card_of_block(block: Seq<Seq<char>>) -> (Seq<char>, Seq<char>) {
    let cs = kept(block);
    let k = first_answer(cs);
    (
        join_lines(seq![strip_marker(cs[0])] + cs.subrange(1, k)),
        join_lines(seq![strip_marker(cs[k])] + cs.subrange(k + 1, cs.len() as int)),
    )
}

pub proof fn lemma_run_end_bounds(ls: Seq<Seq<char>>, i: int)
    requires
        0 <= i <= ls.len(),
    ensures
        i <= run_end(ls, i) <= ls.len(),
        i < ls.len() && is_quoted(ls[i]) ==> run_end(ls, i) > i,
        forall|j: int| i <= j < run_end(ls, i) ==> is_quoted(#[trigger] ls[j]),
    decreases ls.len() - i,
{
    if i < ls.len() && is_quoted(ls[i]) {
        lemma_run_end_bounds(ls, i + 1);
    }
}

/// The cards of the lines from `i` on, in order.
pub open spec fn parse_lines(ls: Seq<Seq<char>>, i: int) -> Seq<(Seq<char>, Seq<char>)>
    decreases ls.len() - i,
    via parse_lines_decreases
{
    if i < 0 || i >= ls.len() {
        Seq::empty()
    } else if starts_card(ls, i) {
        let e = run_end(ls, i);
        seq![card_of_block(ls.subrange(i, e))] + parse_lines(ls, e)
    } else {
        parse_lines(ls, i + 1)
    }
}

#[via_fn]
proof fn parse_lines_decreases(ls: Seq<Seq<char>>, i: int) {
    if 0 <= i < ls.len() {
        lemma_run_end_bounds(ls, i);
    }
}

/// The lines, from `i` on, that open a question but start no card because
/// no answer line follows in their run.
pub open spec fn unanswered_lines(ls: Seq<Seq<char>>, i: int) -> Seq<int>
    decreases ls.len() - i,
    via unanswered_lines_decreases
{
    if i < 0 || i >= ls.len() {
        Seq::empty()
    } else if starts_card(ls, i) {
        unanswered_lines(ls, run_end(ls, i))
    } else if is_quoted(ls[i]) && is_question_content(line_content(ls[i])) {
        seq![i] + unanswered_lines(ls, i + 1)
    } else {
        unanswered_lines(ls, i + 1)
    }
}

#[via_fn]
proof fn unanswered_lines_decreases(ls: Seq<Seq<char>>, i: int) {
    if 0 <= i < ls.len() {
        lemma_run_end_bounds(ls, i);
    }
}

/// Line numbers as integers.
pub open spec fn line_numbers(v: Seq<usize>) -> Seq<int> {
    v.map_values(|n: usize| n as int)
}

/// The cards of a note, in the order of their blocks.
pub open spec fn parse(note: Seq<char>) -> Seq<(Seq<char>, Seq<char>)> {
    parse_lines(split_lines(note), 0)
}

fn quoted_line(line: &Vec<char>) -> (r: bool)
    ensures
        r == is_quoted(line@),
{
    let t = trimmed(line.as_slice());
    t.len() > 0 && t[0] == '>'
}

fn content_of(line: &Vec<char>) -> (r: Vec<char>)
    ensures
        r@ == line_content(line@),
{
    let t = trimmed(line.as_slice());
    let u = unquoted(t.as_slice());
    trimmed(u.as_slice())
}

fn marker_at_start(c: &Vec<char>, lower: char, upper: char) -> (r: bool)
    ensures
        r == has_marker(c@, lower, upper),
{
    c.len() >= 2 && (c[0] == lower || c[0] == upper) && c[1] == ':'
}

fn without_marker(c: &Vec<char>) -> (r: Vec<char>)
    requires
        c@.len() >= 2,
    ensures
        r@ == strip_marker(c@),
{
    let mut rest: Vec<char> = Vec::new();
    let mut i: usize = 2;
    while i < c.len()
        invariant
            2 <= i <= c@.len(),
            rest@ == c@.subrange(2, i as int),
        decreases c@.len() - i,
    {
        rest.push(c[i]);
        i = i + 1;
        assert(rest@ =~= c@.subrange(2, i as int));
    }
    assert(rest@ =~= c@.skip(2));
    trimmed(rest.as_slice())
}

pub proof fn lemma_first_answer(cs: Seq<Seq<char>>, k: int)
    requires
        0 <= k < cs.len(),
        is_answer_content(cs[k]),
        forall|m: int| 0 <= m < k ==> !is_answer_content(#[trigger] cs[m]),
    ensures
        first_answer(cs) == k,
    decreases k,
{
    if k > 0 {
        assert(!is_answer_content(cs[0]));
        assert forall|m: int| 0 <= m < k - 1 implies !is_answer_content(
            #[trigger] cs.drop_first()[m],
        ) by {
            assert(cs.drop_first()[m] == cs[m + 1]);
        }
        lemma_first_answer(cs.drop_first(), k - 1);
    }
}

/// The card that the lines `i..e` make, for a block that starts a card.
fn card_from_block(ls: &Vec<Vec<char>>, i: usize, e: usize) -> (r: Card)
    requires
        i < e <= ls@.len(),
        e == run_end(views(ls@), i as int),
        starts_card(views(ls@), i as int),
    ensures
        r@ == card_of_block(views(ls@).subrange(i as int, e as int)),
{
    let ghost lv = views(ls@);
    let mut cs: Vec<Vec<char>> = Vec::new();
    let mut seen = false;
    let mut j: usize = i;
    assert(lv.subrange(i as int, i as int) =~= Seq::<Seq<char>>::empty());
    while j < e
        invariant
            lv == views(ls@),
            i <= j <= e <= ls@.len(),
            views(cs@) == kept(lv.subrange(i as int, j as int)),
            j > i ==> cs@.len() >= 1 && cs@[0]@ == line_content(lv[i as int]),
            seen ==> exists|m: int| 0 <= m < cs@.len() && is_answer_content(#[trigger] cs@[m]@),
            !seen ==> forall|m: int| i < m < j ==> !is_answer_content(
                #[trigger] line_content(lv[m]),
            ),
            is_question_content(line_content(lv[i as int])),
        decreases e - j,
    {
        let c = content_of(&ls[j]);
        let ghost prev = cs@;
        assert(lv.subrange(i as int, j + 1).drop_last() =~= lv.subrange(i as int, j as int));
        assert(lv[j as int] == ls@[j as int]@);
        if c.len() > 0 {
            let is_answer = marker_at_start(&c, 'a', 'A');
            cs.push(c);
            if is_answer {
                assert(is_answer_content(cs@[cs@.len() - 1]@));
                seen = true;
            }
            assert(forall|m: int| 0 <= m < prev.len() ==> cs@[m] == prev[m]);
            assert(views(cs@) =~= views(prev).push(line_content(lv[j as int])));
        } else {
            assert(!is_answer_content(line_content(lv[j as int])));
        }
        j = j + 1;
    }
    assert(seen) by {
        let w = choose|w: int| i < w < e && #[trigger] is_answer_content(line_content(lv[w]));
        if !seen {
            assert(!is_answer_content(line_content(lv[w])));
        }
    }
    let ghost cv = views(cs@);
    let mut k: usize = 0;
    while k < cs.len() && !marker_at_start(&cs[k], 'a', 'A')
        invariant
            cv == views(cs@),
            k <= cs@.len(),
            forall|m: int| 0 <= m < k ==> !is_answer_content(#[trigger] cv[m]),
            exists|m: int| 0 <= m < cs@.len() && is_answer_content(#[trigger] cs@[m]@),
        decreases cs@.len() - k,
    {
        k = k + 1;
    }
    proof {
        if k == cs@.len() {
            let m = choose|m: int| 0 <= m < cs@.len() && is_answer_content(#[trigger] cs@[m]@);
            assert(cv[m] == cs@[m]@);
        }
        lemma_first_answer(cv, k as int);
    }
    assert(k >= 1) by {
        if k == 0 {
            assert(cv[0] == line_content(lv[i as int]));
        }
    }
    let mut front_lines: Vec<Vec<char>> = Vec::new();
    front_lines.push(without_marker(&cs[0]));
    let mut m: usize = 1;
    while m < k
        invariant
            cv == views(cs@),
            1 <= m <= k < cs@.len(),
            cv[0].len() >= 2,
            views(front_lines@) == seq![strip_marker(cv[0])] + cv.subrange(1, m as int),
        decreases k - m,
    {
        let ghost prev = views(front_lines@);
        let line = copied(cs[m].as_slice());
        assert(line@ == cv[m as int]);
        front_lines.push(line);
        assert(views(front_lines@) =~= prev.push(cv[m as int]));
        assert(cv.subrange(1, m + 1) =~= cv.subrange(1, m as int).push(cv[m as int]));
        m = m + 1;
        assert(views(front_lines@) =~= seq![strip_marker(cv[0])] + cv.subrange(1, m as int));
    }
    let mut back_lines: Vec<Vec<char>> = Vec::new();
    back_lines.push(without_marker(&cs[k]));
    let mut m: usize = k + 1;
    assert(views(back_lines@) =~= seq![strip_marker(cv[k as int])] + cv.subrange(k + 1, k + 1));
    while m < cs.len()
        invariant
            cv == views(cs@),
            k < m <= cs@.len(),
            views(back_lines@) == seq![strip_marker(cv[k as int])] + cv.subrange(
                k + 1,
                m as int,
            ),
        decreases cs@.len() - m,
    {
        let ghost prev = views(back_lines@);
        let line = copied(cs[m].as_slice());
        assert(line@ == cv[m as int]);
        back_lines.push(line);
        assert(views(back_lines@) =~= prev.push(cv[m as int]));
        assert(cv.subrange(k + 1, m + 1) =~= cv.subrange(k + 1, m as int).push(cv[m as int]));
        m = m + 1;
        assert(views(back_lines@) =~= seq![strip_marker(cv[k as int])] + cv.subrange(
            k + 1,
            m as int,
        ));
    }
    let front = joined(&front_lines);
    let back = joined(&back_lines);
    Card { front: string_of(front.as_slice()), back: string_of(back.as_slice()) }
}

/// The end of the quoted run at line `i`, and whether a card block starts there.
fn block_at(ls: &Vec<Vec<char>>, i: usize) -> (r: (usize, bool))
    requires
        i < ls@.len(),
    ensures
        r.0 as int == run_end(views(ls@), i as int),
        r.1 == starts_card(views(ls@), i as int),
        i <= r.0 <= ls@.len(),
        r.1 ==> i < r.0,
{
    let ghost lv = views(ls@);
    let mut e: usize = i;
    while e < ls.len() && quoted_line(&ls[e])
        invariant
            lv == views(ls@),
            i <= e <= ls@.len(),
            run_end(lv, i as int) == run_end(lv, e as int),
        decreases ls@.len() - e,
    {
        assert(lv[e as int] == ls@[e as int]@);
        e = e + 1;
    }
    proof {
        if e < ls@.len() {
            assert(lv[e as int] == ls@[e as int]@);
        }
        lemma_run_end_bounds(lv, i as int);
    }
    let mut starts = false;
    if e > i {
        assert(lv[i as int] == ls@[i as int]@);
        let first = content_of(&ls[i]);
        if marker_at_start(&first, 'q', 'Q') {
            let mut j: usize = i + 1;
            while j < e && !starts
                invariant
                    lv == views(ls@),
                    i < j <= e <= ls@.len(),
                    starts ==> answer_between(lv, i as int, e as int),
                    !starts ==> forall|m: int| i < m < j ==> !is_answer_content(
                        #[trigger] line_content(lv[m]),
                    ),
                decreases e - j,
            {
                let c = content_of(&ls[j]);
                assert(lv[j as int] == ls@[j as int]@);
                if marker_at_start(&c, 'a', 'A') {
                    assert(is_answer_content(line_content(lv[j as int])));
                    starts = true;
                }
                j = j + 1;
            }
            proof {
                if !starts && answer_between(lv, i as int, e as int) {
                    let w = choose|w: int|
                        i < w < e && #[trigger] is_answer_content(line_content(lv[w]));
                    assert(!is_answer_content(line_content(lv[w])));
                }
            }
        }
    }
    assert(starts == starts_card(lv, i as int));
    (e, starts)
}

impl Card {
    /// Reads every card block of a note, in order; blocks without an answer
    /// line are skipped.
    pub fn from_markdown(markdown: &str) -> (r: Vec<Card>)
        ensures
            card_views(r@) == parse(markdown@),
    {
        let chars = chars_of(markdown);
        let ls = lines_of(chars.as_slice());
        let ghost lv = views(ls@);
        let mut cards: Vec<Card> = Vec::new();
        let mut i: usize = 0;
        assert(card_views(cards@) + parse_lines(lv, 0) =~= parse_lines(lv, 0));
        while i < ls.len()
            invariant
                lv == views(ls@),
                lv == split_lines(markdown@),
                i <= ls@.len(),
                parse_lines(lv, 0) == card_views(cards@) + parse_lines(lv, i as int),
            decreases ls@.len() - i,
        {
            let (e, starts) = block_at(&ls, i);
            if starts {
                let card = card_from_block(&ls, i, e);
                let ghost prev = cards@;
                cards.push(card);
                assert(card_views(cards@) =~= card_views(prev).push(card@));
                assert(parse_lines(lv, i as int) == seq![card@] + parse_lines(lv, e as int));
                assert(card_views(cards@) + parse_lines(lv, e as int) =~= card_views(prev)
                    + parse_lines(lv, i as int));
                i = e;
            } else {
                i = i + 1;
            }
        }
        cards
    }

    /// The line numbers, counted from zero, of the question lines that the
    /// parser skips for want of an answer line.
    pub fn unanswered_questions(markdown: &str) -> (r: Vec<usize>)
        ensures
            line_numbers(r@) == unanswered_lines(split_lines(markdown@), 0),
    {
        let chars = chars_of(markdown);
        let ls = lines_of(chars.as_slice());
        let ghost lv = views(ls@);
        let mut out: Vec<usize> = Vec::new();
        let mut i: usize = 0;
        assert(line_numbers(out@) + unanswered_lines(lv, 0) =~= unanswered_lines(lv, 0));
        while i < ls.len()
            invariant
                lv == views(ls@),
                lv == split_lines(markdown@),
                i <= ls@.len(),
                unanswered_lines(lv, 0) == line_numbers(out@) + unanswered_lines(lv, i as int),
            decreases ls@.len() - i,
        {
            let (e, starts) = block_at(&ls, i);
            if starts {
                i = e;
            } else {
                assert(lv[i as int] == ls@[i as int]@);
                let q = quoted_line(&ls[i]);
                let first = content_of(&ls[i]);
                if q && marker_at_start(&first, 'q', 'Q') {
                    let ghost prev = out@;
                    out.push(i);
                    assert(line_numbers(out@) =~= line_numbers(prev).push(i as int));
                    assert(line_numbers(out@) + unanswered_lines(lv, i + 1) =~= line_numbers(prev)
                        + unanswered_lines(lv, i as int));
                }
                i = i + 1;
            }
        }
        out
    }

    /// Both sides rendered from markdown to HTML, with tables and strikethrough.
    pub fn into_html(self) -> (r: Card)
        ensures
            r.front@ == html_of(self.front@, true, true),
            r.back@ == html_of(self.back@, true, true),
    {
        let front = markdown_to_html(self.front.as_str(), true, true);
        let back = markdown_to_html(self.back.as_str(), true, true);
        Card { front, back }
    }

    /// The formulas of the front, then those of the back, each in order.
    pub fn get_all_formulas(&self) -> (r: Vec<String>)
        ensures
            string_views(r@) == formulas(self.front@) + formulas(self.back@),
    {
        let front = chars_of(self.front.as_str());
        let back = chars_of(self.back.as_str());
        let mut out: Vec<String> = Vec::new();
        push_strings(&mut out, &formulas_in(front.as_slice()));
        push_strings(&mut out, &formulas_in(back.as_slice()));
        assert(string_views(out@) =~= formulas(self.front@) + formulas(self.back@));
        out
    }

    /// Every occurrence of the delimited formula, on both sides, replaced.
    pub fn replace_formula(&self, formula: &str, replacement: &str) -> (r: Card)
        ensures
            r.front@ == replace_all(self.front@, delimited(formula@), replacement@),
            r.back@ == replace_all(self.back@, delimited(formula@), replacement@),
    {
        let mut pattern: Vec<char> = Vec::new();
        pattern.push('$');
        pattern.push('$');
        let f = chars_of(formula);
        crate::text::push_all(&mut pattern, f.as_slice());
        pattern.push('$');
        pattern.push('$');
        assert(pattern@ =~= delimited(formula@));
        let rep = chars_of(replacement);
        let front = chars_of(self.front.as_str());
        let back = chars_of(self.back.as_str());
        let new_front = replaced(front.as_slice(), pattern.as_slice(), rep.as_slice());
        let new_back = replaced(back.as_slice(), pattern.as_slice(), rep.as_slice());
        Card { front: string_of(new_front.as_slice()), back: string_of(new_back.as_slice()) }
    }

    /// The image locators of the front, then those of the back, each in order.
    pub fn get_all_images(&self) -> (r: Vec<String>)
        ensures
            string_views(r@) == images(self.front@) + images(self.back@),
    {
        let front = chars_of(self.front.as_str());
        let back = chars_of(self.back.as_str());
        let mut out: Vec<String> = Vec::new();
        push_strings(&mut out, &images_in(front.as_slice()));
        push_strings(&mut out, &images_in(back.as_slice()));
        assert(string_views(out@) =~= images(self.front@) + images(self.back@));
        out
    }

    /// Every occurrence of the locator text, on both sides, replaced.
    pub fn replace_image_link(&self, image: &str, replacement: &str) -> (r: Card)
        ensures
            r.front@ == replace_all(self.front@, image@, replacement@),
            r.back@ == replace_all(self.back@, image@, replacement@),
    {
        let pattern = chars_of(image);
        let rep = chars_of(replacement);
        let front = chars_of(self.front.as_str());
        let back = chars_of(self.back.as_str());
        let new_front = replaced(front.as_slice(), pattern.as_slice(), rep.as_slice());
        let new_back = replaced(back.as_slice(), pattern.as_slice(), rep.as_slice());
        Card { front: string_of(new_front.as_slice()), back: string_of(new_back.as_slice()) }
    }
}

proof fn lemma_first_answer_is_first(cs: Seq<Seq<char>>)
    ensures
        0 <= first_answer(cs) <= cs.len(),
        first_answer(cs) < cs.len() ==> is_answer_content(cs[first_answer(cs)]),
        forall|m: int| 0 <= m < first_answer(cs) ==> !is_answer_content(#[trigger] cs[m]),
    decreases cs.len(),
{
    if cs.len() > 0 && !is_answer_content(cs[0]) {
        lemma_first_answer_is_first(cs.drop_first());
        assert forall|m: int| 0 <= m < first_answer(cs) implies !is_answer_content(
            #[trigger] cs[m],
        ) by {
            if m > 0 {
                assert(cs[m] == cs.drop_first()[m - 1]);
            }
        }
    }
}

/// A block is split once, at its first answer line: no earlier line is an
/// answer line, that line's marker is stripped, and every later line, answer
/// markers included, stands verbatim in the back.
pub proof fn lemma_block_split_once(block: Seq<Seq<char>>)
    requires
        first_answer(kept(block)) < kept(block).len(),
    ensures
        ({
            let cs = kept(block);
            let k = first_answer(cs);
            &&& is_answer_content(cs[k])
            &&& forall|m: int| 0 <= m < k ==> !is_answer_content(#[trigger] cs[m])
            &&& card_of_block(block).1 == join_lines(
                seq![strip_marker(cs[k])] + cs.subrange(k + 1, cs.len() as int),
            )
            &&& card_of_block(block).0 == join_lines(
                seq![strip_marker(cs[0])] + cs.subrange(1, k),
            )
        }),
{
    lemma_first_answer_is_first(kept(block));
}

} // verus!
