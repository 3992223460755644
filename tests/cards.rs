use ankiding::card::Card;
use ankiding::dashed::extract_markdown_cards;

fn card(front: &str, back: &str) -> Card {
    Card { front: front.to_string(), back: back.to_string() }
}

#[test]
fn parses_single_card() {
    let cards = Card::from_markdown(">Q: What is 2+2?\n>A: 4\n");
    assert_eq!(cards.len(), 1);
    assert_eq!(cards[0].front, "What is 2+2?");
    assert_eq!(cards[0].back, "4");
}

#[test]
fn block_without_answer_is_skipped() {
    let cards = Card::from_markdown(">Q: What is 2+2?\n>no answer here\n");
    assert!(cards.is_empty());
}

#[test]
fn skipped_block_does_not_hide_later_cards() {
    let cards = Card::from_markdown(">Q: lonely\n\n> q: second\n> a: yes\n");
    assert_eq!(cards.len(), 1);
    assert_eq!(cards[0].front, "second");
    assert_eq!(cards[0].back, "yes");
}

#[test]
fn multi_line_sides_keep_their_lines() {
    let note = "intro text\n> Q: line one\n> line two\n>\n> A: first\n> second\n\nafter\n";
    let cards = Card::from_markdown(note);
    assert_eq!(cards.len(), 1);
    assert_eq!(cards[0].front, "line one\nline two");
    assert_eq!(cards[0].back, "first\nsecond");
}

#[test]
fn only_first_answer_marker_splits() {
    let cards = Card::from_markdown(">Q: q\n>A: one\n>A: two\n");
    assert_eq!(cards.len(), 1);
    assert_eq!(cards[0].front, "q");
    assert_eq!(cards[0].back, "one\nA: two");
}

#[test]
fn markers_are_case_insensitive_and_cards_keep_order() {
    let note = ">q: first\n>a: 1\nbetween\n>Q: second\n>a: 2\n";
    let cards = Card::from_markdown(note);
    assert_eq!(cards.len(), 2);
    assert_eq!(cards[0].front, "first");
    assert_eq!(cards[0].back, "1");
    assert_eq!(cards[1].front, "second");
    assert_eq!(cards[1].back, "2");
}

#[test]
fn answer_on_last_line_without_newline() {
    let cards = Card::from_markdown("  >> Q:  spaced \n>A:done");
    assert_eq!(cards.len(), 1);
    assert_eq!(cards[0].front, "spaced");
    assert_eq!(cards[0].back, "done");
}

#[test]
fn empty_note_has_no_cards() {
    assert!(Card::from_markdown("").is_empty());
}

#[test]
fn reparsing_a_side_does_not_split_it_again() {
    let cards = Card::from_markdown(">Q: a\n>A: b\n");
    let again = Card::from_markdown(&cards[0].front);
    assert!(again.is_empty());
}

#[test]
fn finds_formulas_front_then_back() {
    let c = card("a $$x^2$$ b $$y$$", "$$z$$");
    assert_eq!(c.get_all_formulas(), vec!["x^2", "y", "z"]);
}

#[test]
fn formula_does_not_cross_a_newline() {
    let c = card("$$a\nb$$c$$", "");
    assert_eq!(c.get_all_formulas(), vec!["c"]);
}

#[test]
fn repeated_formula_is_listed_each_time() {
    let c = card("$$x$$ and $$x$$", "");
    assert_eq!(c.get_all_formulas(), vec!["x", "x"]);
}

#[test]
fn finds_image_locators() {
    let c = card("see ![alt](a.png) and ![b\nc](https://example.com/y.png)", "![](/abs/z.jpg)");
    assert_eq!(
        c.get_all_images(),
        vec!["a.png", "https://example.com/y.png", "/abs/z.jpg"]
    );
}

#[test]
fn image_without_closing_parenthesis_is_not_found() {
    let c = card("![alt](a.png", "");
    assert!(c.get_all_images().is_empty());
}

#[test]
fn replace_formula_replaces_every_occurrence() {
    let c = card("$$x$$ + $$x$$", "back $$x$$ $$y$$");
    let r = c.replace_formula("x", "IMG");
    assert_eq!(r.front, "IMG + IMG");
    assert_eq!(r.back, "back IMG $$y$$");
}

#[test]
fn replace_image_link_replaces_every_occurrence() {
    let c = card("![a](p.png) ![b](p.png)", "p.png");
    let r = c.replace_image_link("p.png", "n.png");
    assert_eq!(r.front, "![a](n.png) ![b](n.png)");
    assert_eq!(r.back, "n.png");
}

#[test]
fn into_html_renders_markdown() {
    let c = card("**bold**", "a ~~b~~");
    let h = c.into_html();
    assert_eq!(h.front, "<p><strong>bold</strong></p>\n");
    assert_eq!(h.back, "<p>a <del>b</del></p>\n");
}

#[test]
fn unanswered_questions_are_reported_by_line() {
    let note = "title\n>Q: lonely\n>still no answer\n\n>Q: fine\n>A: yes\n\n>Q: x\n>Q: y\n";
    assert_eq!(Card::unanswered_questions(note), vec![1, 7, 8]);
    assert_eq!(Card::from_markdown(note).len(), 1);
}

#[test]
fn answered_notes_report_nothing() {
    assert!(Card::unanswered_questions(">Q: What is 2+2?\n>A: 4\n").is_empty());
}

#[test]
fn dashed_layout_single_card() {
    let cards = extract_markdown_cards("---\nQ: What?\n---\nA: This.\n---");
    assert_eq!(cards.len(), 1);
    assert_eq!(cards[0].front, "What?");
    assert_eq!(cards[0].back, "This.");
}

#[test]
fn dashed_layout_multi_line_and_consecutive_cards() {
    let note = "---\n  Q: a\nb\n---\n\nA: c\n---\n---\nQ: d\n---\nA: e\n---\n";
    let cards = extract_markdown_cards(note);
    assert_eq!(cards.len(), 2);
    assert_eq!(cards[0].front, "a\nb");
    assert_eq!(cards[0].back, "c");
    assert_eq!(cards[1].front, "d");
    assert_eq!(cards[1].back, "e");
}

#[test]
fn dashed_layout_needs_closing_dashes() {
    assert!(extract_markdown_cards("---\nQ: a\n---\nA: b").is_empty());
    assert!(extract_markdown_cards(">Q: a\n>A: b\n").is_empty());
}

#[test]
fn unicode_whitespace_is_trimmed() {
    let cards = Card::from_markdown(">Q:\u{a0}What?\u{3000}\n>A:\u{2003}this\u{a0}\n");
    assert_eq!(cards.len(), 1);
    assert_eq!(cards[0].front, "What?");
    assert_eq!(cards[0].back, "this");
}
