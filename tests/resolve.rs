use ankiding::anki::{card_model, from_cards, DeckError};
use ankiding::card::Card;
use ankiding::deck::deck_name;
use ankiding::files::{get_all_filenames, has_note_suffix, is_note_file, PathError, PathKind};
use ankiding::latex::latex_document;
use ankiding::staging::{
    classify_image, extension_of, image_source, AssetSource, ResolveError, Staging,
};

fn card(front: &str, back: &str) -> Card {
    Card { front: front.to_string(), back: back.to_string() }
}

fn ok<T>(r: Result<T, ResolveError>) -> T {
    match r {
        Ok(v) => v,
        Err(ResolveError::NameCollision(n)) => panic!("name collision on {}", n),
    }
}

#[test]
fn formula_becomes_staged_png() {
    let mut staging = Staging::new("/tmp/stage".to_string());
    let c = card("q", "result: $$x^2$$");
    let r = ok(staging.resolve_formulas(&c));
    assert_eq!(staging.assets.len(), 1);
    let a = &staging.assets[0];
    assert_eq!(a.original_locator, "x^2");
    assert!(matches!(&a.source, AssetSource::Formula(f) if f == "x^2"));
    assert_eq!(a.generated_filename.len(), 40);
    assert!(a.generated_filename.ends_with(".png"));
    assert_eq!(a.absolute_path, format!("/tmp/stage/{}", a.generated_filename));
    assert_eq!(r.front, "q");
    assert_eq!(r.back, format!("result: ![latex-render]({})", a.generated_filename));
}

#[test]
fn same_formula_in_two_cards_is_rewritten_in_both() {
    let mut staging = Staging::new("/s".to_string());
    let c1 = card("$$a+b$$ twice $$a+b$$", "x");
    let c2 = card("y", "also $$a+b$$");
    let r1 = ok(staging.resolve_formulas(&c1));
    assert_eq!(staging.assets.len(), 1);
    let r2 = ok(staging.resolve_formulas(&c2));
    assert_eq!(staging.assets.len(), 2);
    assert_ne!(staging.assets[0].generated_filename, staging.assets[1].generated_filename);
    assert!(!r1.front.contains("$$"));
    assert!(!r2.back.contains("$$"));
    assert_eq!(r2.front, "y");
    assert_eq!(r1.back, "x");
    let last = &staging.assets[staging.assets.len() - 1];
    assert_eq!(r2.back, format!("also ![latex-render]({})", last.generated_filename));
    assert!(r1.front.starts_with("![latex-render]("));
    assert!(r1.front.contains(" twice ![latex-render]("));
}

#[test]
fn staged_names_are_distinct() {
    let mut staging = Staging::new("/s".to_string());
    for i in 0..50 {
        let loc = format!("img{}.png", i);
        ok(staging.stage(&loc, AssetSource::LocalFile(loc.clone()), ".png"));
    }
    let mut names: Vec<&String> = staging.assets.iter().map(|a| &a.generated_filename).collect();
    names.sort();
    names.dedup();
    assert_eq!(names.len(), 50);
    assert!(staging.has_name(&staging.assets[7].generated_filename.clone()));
    assert!(!staging.has_name("nothing.png"));
}

#[test]
fn images_are_classified_and_rewritten() {
    let mut staging = Staging::new("/s".to_string());
    let c = card(
        "![a](img/pic.png) ![b](https://example.com/x.svg)",
        "![c](/abs/photo.JPG) ![d](img/pic.png)",
    );
    let r = ok(staging.resolve_images(&c, "notes/deck.anki.md"));
    assert_eq!(staging.assets.len(), 3);
    let a = &staging.assets;
    assert!(matches!(&a[0].source, AssetSource::LocalFile(p) if p == "notes/img/pic.png"));
    assert!(matches!(&a[1].source, AssetSource::Remote(u) if u == "https://example.com/x.svg"));
    assert!(matches!(&a[2].source, AssetSource::LocalFile(p) if p == "/abs/photo.JPG"));
    assert!(a[0].generated_filename.ends_with(".png"));
    assert!(a[1].generated_filename.ends_with(".svg"));
    assert!(a[2].generated_filename.ends_with(".JPG"));
    assert_eq!(
        r.front,
        format!("![a]({}) ![b]({})", a[0].generated_filename, a[1].generated_filename)
    );
    assert_eq!(
        r.back,
        format!("![c]({}) ![d]({})", a[2].generated_filename, a[0].generated_filename)
    );
}

#[test]
fn formula_images_are_not_staged_again() {
    let mut staging = Staging::new("/s".to_string());
    let c = card("$$x$$", "![p](p.gif)");
    let r = ok(staging.resolve_formulas(&c));
    let r = ok(staging.resolve_images(&r, "deck.anki.md"));
    assert_eq!(staging.assets.len(), 2);
    assert!(matches!(&staging.assets[1].source, AssetSource::LocalFile(p) if p == "p.gif"));
    let formula_name = &staging.assets[0].generated_filename;
    let image_name = &staging.assets[1].generated_filename;
    assert_eq!(r.front, format!("![latex-render]({})", formula_name));
    assert_eq!(r.back, format!("![p]({})", image_name));
    let again = r.get_all_images();
    assert_eq!(again.len(), 2);
    assert!(again.iter().all(|l| staging.has_name(l)));
    assert!(r.get_all_formulas().is_empty());
}

#[test]
fn classify_uses_the_url_answer() {
    assert!(matches!(classify_image("x.png", true, "a/b.md"), AssetSource::Remote(u) if u == "x.png"));
    assert!(matches!(classify_image("x.png", false, "a/b.md"), AssetSource::LocalFile(p) if p == "a/x.png"));
    assert!(matches!(classify_image("x.png", false, "b.md"), AssetSource::LocalFile(p) if p == "x.png"));
    assert!(matches!(classify_image("x.png", false, "/b.md"), AssetSource::LocalFile(p) if p == "/x.png"));
    assert!(matches!(classify_image("/y/x.png", false, "a/b.md"), AssetSource::LocalFile(p) if p == "/y/x.png"));
}

#[test]
fn image_source_detects_urls() {
    assert!(matches!(image_source("https://example.com/missing.png", "n.md"), AssetSource::Remote(_)));
    assert!(matches!(image_source("pics/a.png", "n/m.md"), AssetSource::LocalFile(p) if p == "n/pics/a.png"));
}

#[test]
fn extensions_come_from_the_last_segment() {
    assert_eq!(extension_of("a/b/pic.png"), ".png");
    assert_eq!(extension_of("https://example.com/x.tar.gz"), ".gz");
    assert_eq!(extension_of("dir.d/noext"), "");
    assert_eq!(extension_of(".hidden"), "");
    assert_eq!(extension_of("x.png?size=2"), "");
    assert_eq!(extension_of("trailing."), "");
    assert_eq!(extension_of(""), "");
}

#[test]
fn latex_document_light_and_dark() {
    let light = latex_document("x^2", false);
    assert_eq!(
        light,
        "\\documentclass{standalone}\n\\usepackage{amsmath,amssymb,amsthm,xcolor}\n\\begin{document}\n\\Large\n$x^2$\n\\end{document}\n"
    );
    let dark = latex_document("x^2", true);
    assert_eq!(
        dark,
        "\\documentclass{standalone}\n\\usepackage{amsmath,amssymb,amsthm,xcolor}\n\\begin{document}\n\\Large\n\\color{white}\n$x^2$\n\\end{document}\n"
    );
}

#[test]
fn note_files_are_recognised_by_name() {
    assert!(is_note_file("a/B/Deck.ANKI.MD"));
    assert!(is_note_file("deck.anki.md"));
    assert!(!is_note_file("deck.md"));
    assert!(!is_note_file("x.anki.md/readme.txt"));
    assert!(has_note_suffix("x.anki.md"));
    assert!(!has_note_suffix("X.ANKI.MD"));
}

#[test]
fn filenames_for_each_kind_of_path() {
    let found = vec![
        "d/a.anki.md".to_string(),
        "d/b.txt".to_string(),
        "d/sub/C.Anki.Md".to_string(),
    ];
    match get_all_filenames("f.md".to_string(), PathKind::File, &found) {
        Ok(v) => assert_eq!(v, vec!["f.md".to_string()]),
        Err(_) => panic!("a file is its own list"),
    }
    match get_all_filenames("d".to_string(), PathKind::Directory, &found) {
        Ok(v) => assert_eq!(v, vec!["d/a.anki.md".to_string(), "d/sub/C.Anki.Md".to_string()]),
        Err(_) => panic!("a directory lists its notes"),
    }
    assert!(matches!(
        get_all_filenames("x".to_string(), PathKind::Other, &found),
        Err(PathError::NotFileOrDirectory)
    ));
}

#[test]
fn deck_names_follow_the_path() {
    assert_eq!(deck_name("notes/math/algebra.anki.md", '/'), "notes::math::algebra");
    assert_eq!(deck_name("single.anki.md", '/'), "single");
    assert_eq!(deck_name("a\\b.anki.md", '\\'), "a::b");
}

#[test]
fn decks_are_built_from_cards() {
    let model = card_model("{{Question}}", "{{FrontSide}}<hr id=answer>{{Answer}}", "");
    let cards = vec![card("<p>q1</p>", "<p>a1</p>"), card("<p>q2</p>", "<p>a2</p>")];
    assert!(matches!(from_cards("notes/x.anki.md", '/', 42, &model, &cards), Ok(_)));
    assert!(matches!(from_cards("empty.anki.md", '/', -7, &model, &[]), Ok(_)));
}

#[test]
fn card_that_the_model_cannot_take_is_rejected() {
    let model = card_model("{{Question", "{{Answer}}", "");
    let cards = vec![card("q", "a")];
    assert!(matches!(
        from_cards("x.anki.md", '/', 1, &model, &cards),
        Err(DeckError::NoteRejected(0))
    ));
    assert!(matches!(from_cards("x.anki.md", '/', 1, &model, &[]), Ok(_)));
}

#[test]
fn only_the_reference_text_is_rewritten() {
    let mut staging = Staging::new("/s".to_string());
    let c = card("![x](a.png) ![y](ba.png) a.png stays", "");
    let r = ok(staging.resolve_images(&c, "n.anki.md"));
    assert_eq!(staging.assets.len(), 2);
    let n1 = &staging.assets[0].generated_filename;
    let n2 = &staging.assets[1].generated_filename;
    assert_eq!(staging.assets[0].original_locator, "a.png");
    assert_eq!(staging.assets[1].original_locator, "ba.png");
    assert_eq!(r.front, format!("![x]({}) ![y]({}) a.png stays", n1, n2));
    assert!(r.get_all_images().iter().all(|l| staging.has_name(l)));
}

#[test]
fn card_without_references_resolves_to_itself() {
    let mut staging = Staging::new("/s".to_string());
    let c = card("plain", "text");
    let r = ok(staging.resolve_formulas(&c));
    let r = ok(staging.resolve_images(&r, "n.anki.md"));
    assert_eq!(r.front, "plain");
    assert_eq!(r.back, "text");
    assert!(staging.assets.is_empty());
}

#[test]
fn stage_as_uses_the_given_id() {
    let mut staging = Staging::new("/d".to_string());
    let name = ok(staging.stage_as("abc", "pic.png", AssetSource::LocalFile("pic.png".to_string()), ".png"));
    assert_eq!(name, "abc.png");
    assert_eq!(staging.assets[0].absolute_path, "/d/abc.png");
    match staging.stage_as("abc", "other.png", AssetSource::LocalFile("other.png".to_string()), ".png") {
        Err(ResolveError::NameCollision(n)) => assert_eq!(n, "abc.png"),
        Ok(_) => panic!("a taken name is refused"),
    }
    assert_eq!(staging.assets.len(), 1);
}
