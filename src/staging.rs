//! The staging area: every resolved formula or image gets a file of its own
//! there, under a fresh name, and each card is rewritten to point at it.
//!
//! Resolution only plans: it decides where each asset comes from, names its
//! file and rewrites the card. Rendering, downloading and copying the files
//! is left to the caller, one staged asset at a time.

use vstd::prelude::*;
use crate::card::{delimited, Card};
use crate::refs::{formulas, images};
use crate::text::{
    chars_of, lemma_replace_all_absent, lemma_replace_all_keeps_absent, lemma_replace_all_total, occurs_at, push_all,
    replace_all, slice_of, string_of, string_views,
};

verus! {

/// What an outside URL parser makes of a text: whether it is an absolute URL.
pub uninterp spec fn parses_as_url(s: Seq<char>) -> bool;

/// Relies on `url::Url::parse`, which fails exactly when the text is not an
/// absolute URL; its answer depends on the text alone.
#[verifier::external_body]
fn is_absolute_url(s: &str) -> (r: bool)
    ensures
        r == parses_as_url(s@),
{
    url::Url::parse(s).is_ok()
}

pub open spec fn is_id_char(c: char) -> bool {
    ('0' <= c && c <= '9') || ('a' <= c && c <= 'f') || c == '-'
}

/// Relies on `uuid::Uuid::new_v4` and its `Display`: a random version 4 UUID
/// in lower-case hyphenated form, 36 characters of hex digits and hyphens.
#[verifier::external_body]
fn fresh_id() -> (r: String)
    ensures
        r@.len() == 36,
        forall|i: int| 0 <= i < 36 ==> is_id_char(#[trigger] r@[i]),
{
    uuid::Uuid::new_v4().to_string()
}

/// Where a staged asset comes from.
pub enum AssetSource {
    /// A formula to render, by its source text.
    Formula(String),
    /// An absolute URL to download.
    Remote(String),
    /// A file to copy, by its path.
    LocalFile(String),
}

/// One file of the staging area.
pub struct StagedAsset {
    pub original_locator: String,
    pub generated_filename: String,
    pub absolute_path: String,
    pub source: AssetSource,
}

/// Why a resolution pass stopped.
pub enum ResolveError {
    /// A freshly drawn file name was already taken.
    NameCollision(String),
}

/// All staged assets of a run, inside one directory.
pub struct Staging {
    pub dir: String,
    pub assets: Vec<StagedAsset>,
}

pub open spec fn asset_names(a: Seq<StagedAsset>) -> Seq<Seq<char>> {
    a.map_values(|x: StagedAsset| x.generated_filename@)
}

pub open spec fn join_path(dir: Seq<char>, name: Seq<char>) -> Seq<char> {
    dir + seq!['/'] + name
}

/// A name made of a 36-character identifier and the extension.
pub open spec fn is_generated_name(name: Seq<char>, ext: Seq<char>) -> bool {
    &&& name.len() == 36 + ext.len()
    &&& name.skip(36) == ext
    &&& forall|i: int| 0 <= i < 36 ==> is_id_char(#[trigger] name[i])
}

/// What a formula is replaced with once its image is staged.
pub open spec fn formula_ref(name: Seq<char>) -> Seq<char> {
    "![latex-render]("@ + name + seq![')']
}

/// The card with each formula, in turn, replaced by a reference to its image.
pub open spec fn apply_formulas(
    c: (Seq<char>, Seq<char>),
    fs: Seq<Seq<char>>,
    names: Seq<Seq<char>>,
) -> (Seq<char>, Seq<char>)
    decreases fs.len(),
{
    if fs.len() == 0 {
        c
    } else {
        let prev = apply_formulas(c, fs.drop_last(), names.drop_last());
        let p = delimited(fs.last());
        let r = formula_ref(names[fs.len() - 1]);
        (replace_all(prev.0, p, r), replace_all(prev.1, p, r))
    }
}

/// The end of an image reference that names `l`: `](l)`.
pub open spec fn image_ref(l: Seq<char>) -> Seq<char> {
    seq![']', '('] + l + seq![')']
}

/// The card with the reference to each image locator, in turn, pointed at
/// its staged name; the description and the rest of the text stay.
pub open spec fn apply_images(
    c: (Seq<char>, Seq<char>),
    ls: Seq<Seq<char>>,
    names: Seq<Seq<char>>,
) -> (Seq<char>, Seq<char>)
    decreases ls.len(),
{
    if ls.len() == 0 {
        c
    } else {
        let prev = apply_images(c, ls.drop_last(), names.drop_last());
        let p = image_ref(ls.last());
        let r = image_ref(names[ls.len() - 1]);
        (replace_all(prev.0, p, r), replace_all(prev.1, p, r))
    }
}

/// The locators that are not staged names, each once, in the order of
/// their first occurrence.
pub open spec fn unstaged(ls: Seq<Seq<char>>, names: Seq<Seq<char>>) -> Seq<Seq<char>>
    decreases ls.len(),
{
    if ls.len() == 0 {
        Seq::empty()
    } else {
        let prev = unstaged(ls.drop_last(), names);
        if names.contains(ls.last()) || prev.contains(ls.last()) {
            prev
        } else {
            prev.push(ls.last())
        }
    }
}

impl Staging {
    pub open spec fn names(&self) -> Seq<Seq<char>> {
        asset_names(self.assets@)
    }

    /// Names are pairwise distinct and each path is the name inside the directory.
    pub open spec fn wf(&self) -> bool {
        &&& self.names().no_duplicates()
        &&& forall|i: int|
            0 <= i < self.assets@.len() ==> #[trigger] self.assets@[i].absolute_path@
                == join_path(self.dir@, self.assets@[i].generated_filename@)
    }

    /// An empty staging area in the directory.
    pub fn new(dir: String) -> (r: Staging)
        ensures
            r.wf(),
            r.dir == dir,
            r.assets@.len() == 0,
    {
        let r = Staging { dir, assets: Vec::new() };
        assert(r.names() =~= Seq::<Seq<char>>::empty());
        r
    }

    /// Whether a staged file has this name.
    pub fn has_name(&self, name: &str) -> (r: bool)
        ensures
            r == self.names().contains(name@),
    {
        let target = name.to_owned();
        let mut i: usize = 0;
        while i < self.assets.len()
            invariant
                i <= self.assets@.len(),
                target@ == name@,
                forall|j: int| 0 <= j < i ==> self.names()[j] != name@,
            decreases self.assets@.len() - i,
        {
            assert(self.names()[i as int] == self.assets@[i as int].generated_filename@);
            if self.assets[i].generated_filename == target {
                assert(self.names()[i as int] == name@);
                return true;
            }
            i = i + 1;
        }
        false
    }

    /// Registers an asset under the name `id` followed by `ext`, unless a
    /// staged file already has that name.
    pub fn stage_as(&mut self, id: &str, locator: &str, source: AssetSource, ext: &str) -> (r:
        Result<String, ResolveError>)
        requires
            old(self).wf(),
        ensures
            final(self).wf(),
            final(self).dir == old(self).dir,
            (r is Err) == old(self).names().contains(id@ + ext@),
            match r {
                Ok(name) => {
                    &&& name@ == id@ + ext@
                    &&& final(self).assets@.len() == old(self).assets@.len() + 1
                    &&& final(self).assets@.take(old(self).assets@.len() as int)
                        == old(self).assets@
                    &&& final(self).assets@.last().original_locator@ == locator@
                    &&& final(self).assets@.last().generated_filename@ == name@
                    &&& final(self).assets@.last().source == source
                },
                Err(ResolveError::NameCollision(name)) => {
                    &&& name@ == id@ + ext@
                    &&& final(self).assets@ == old(self).assets@
                },
            },
    {
        let mut namec = chars_of(id);
        let ec = chars_of(ext);
        push_all(&mut namec, ec.as_slice());
        let name = string_of(namec.as_slice());
        if self.has_name(name.as_str()) {
            return Err(ResolveError::NameCollision(name));
        }
        let mut pathc = chars_of(self.dir.as_str());
        pathc.push('/');
        push_all(&mut pathc, namec.as_slice());
        let path = string_of(pathc.as_slice());
        let ghost prev = self.assets@;
        let reply = string_of(namec.as_slice());
        let asset = StagedAsset {
            original_locator: locator.to_owned(),
            generated_filename: name,
            absolute_path: path,
            source,
        };
        self.assets.push(asset);
        assert(self.assets@.take(prev.len() as int) =~= prev);
        assert(self.names() =~= asset_names(prev).push(namec@));
        assert forall|i: int|
            0 <= i < self.assets@.len() implies #[trigger] self.assets@[i].absolute_path@
            == join_path(self.dir@, self.assets@[i].generated_filename@) by {
            if i < prev.len() {
                assert(self.assets@[i] == prev[i]);
            }
        }
        Ok(reply)
    }

    /// Registers an asset under a fresh random name with the extension.
    pub fn stage(&mut self, locator: &str, source: AssetSource, ext: &str) -> (r: Result<
        String,
        ResolveError,
    >)
        requires
            old(self).wf(),
        ensures
            final(self).wf(),
            final(self).dir == old(self).dir,
            match r {
                Ok(name) => {
                    &&& is_generated_name(name@, ext@)
                    &&& !old(self).names().contains(name@)
                    &&& final(self).assets@.len() == old(self).assets@.len() + 1
                    &&& final(self).assets@.take(old(self).assets@.len() as int)
                        == old(self).assets@
                    &&& final(self).assets@.last().original_locator@ == locator@
                    &&& final(self).assets@.last().generated_filename@ == name@
                    &&& final(self).assets@.last().source == source
                },
                Err(ResolveError::NameCollision(name)) => {
                    &&& final(self).assets@ == old(self).assets@
                    &&& old(self).names().contains(name@)
                },
            },
    {
        let id = fresh_id();
        let r = self.stage_as(id.as_str(), locator, source, ext);
        proof {
            if r is Ok {
                assert((id@ + ext@).skip(36) =~= ext@);
            }
        }
        r
    }
}

/// The position of the last `c` in `s`, or -1.
pub open spec fn last_index_of(s: Seq<char>, c: char) -> int
    decreases s.len(),
{
    if s.len() == 0 {
        -1
    } else if s.last() == c {
        s.len() - 1
    } else {
        last_index_of(s.drop_last(), c)
    }
}

pub proof fn lemma_last_index_of(s: Seq<char>, c: char)
    ensures
        -1 <= last_index_of(s, c) < s.len(),
    decreases s.len(),
{
    if s.len() > 0 && s.last() != c {
        lemma_last_index_of(s.drop_last(), c);
    }
}

/// The path of a local image: an absolute locator as it is, a relative one
/// inside the directory of the note.
pub open spec fn local_path(locator: Seq<char>, note_path: Seq<char>) -> Seq<char> {
    if locator.len() > 0 && locator[0] == '/' {
        locator
    } else {
        note_path.take(last_index_of(note_path, '/') + 1) + locator
    }
}

/// Whether `s` is where the image with this locator comes from, given
/// whether the locator is an absolute URL.
pub open spec fn is_image_source(
    s: AssetSource,
    locator: Seq<char>,
    is_url: bool,
    note_path: Seq<char>,
) -> bool {
    match s {
        AssetSource::Remote(u) => is_url && u@ == locator,
        AssetSource::LocalFile(p) => !is_url && p@ == local_path(locator, note_path),
        AssetSource::Formula(_) => false,
    }
}

pub open spec fn is_ext_char(c: char) -> bool {
    ('0' <= c && c <= '9') || ('a' <= c && c <= 'z') || ('A' <= c && c <= 'Z')
}

/// The extension of the locator's last path segment, dot included: what
/// follows its last dot, when that is a non-empty run of letters and digits
/// and the dot does not open the segment; else nothing.
pub open spec fn file_extension(locator: Seq<char>) -> Seq<char> {
    let seg = locator.skip(last_index_of(locator, '/') + 1);
    let d = last_index_of(seg, '.');
    if d > 0 && d + 1 < seg.len() && (forall|i: int|
        d < i < seg.len() ==> is_ext_char(#[trigger] seg[i])) {
        seg.skip(d)
    } else {
        Seq::empty()
    }
}

fn last_index(s: &[char], c: char) -> (r: Option<usize>)
    ensures
        match r {
            Some(k) => k as int == last_index_of(s@, c) && k < s@.len() && k < usize::MAX,
            None => last_index_of(s@, c) == -1,
        },
{
    let mut k: usize = s.len();
    assert(s@.take(k as int) =~= s@);
    while k > 0
        invariant
            k <= s@.len(),
            last_index_of(s@, c) == last_index_of(s@.take(k as int), c),
        decreases k,
    {
        assert(s@.take(k as int).drop_last() =~= s@.take(k - 1));
        if s[k - 1] == c {
            return Some(k - 1);
        }
        k = k - 1;
    }
    None
}

/// Where the image with this locator comes from, given whether the locator
/// is an absolute URL.
pub fn classify_image(locator: &str, is_url: bool, note_path: &str) -> (r: AssetSource)
    ensures
        is_image_source(r, locator@, is_url, note_path@),
{
    if is_url {
        return AssetSource::Remote(locator.to_owned());
    }
    let lc = chars_of(locator);
    if lc.len() > 0 && lc[0] == '/' {
        return AssetSource::LocalFile(locator.to_owned());
    }
    let nc = chars_of(note_path);
    let cut = match last_index(nc.as_slice(), '/') {
        Some(k) => k + 1,
        None => 0,
    };
    let mut path = slice_of(nc.as_slice(), 0, cut);
    push_all(&mut path, lc.as_slice());
    assert(path@ =~= local_path(locator@, note_path@));
    AssetSource::LocalFile(string_of(path.as_slice()))
}

/// Where the image with this locator comes from, for a note at `note_path`.
pub fn image_source(locator: &str, note_path: &str) -> (r: AssetSource)
    ensures
        is_image_source(r, locator@, parses_as_url(locator@), note_path@),
{
    let is_url = is_absolute_url(locator);
    classify_image(locator, is_url, note_path)
}

/// `file_extension` of the locator.
pub fn extension_of(locator: &str) -> (r: String)
    ensures
        r@ == file_extension(locator@),
{
    let lc = chars_of(locator);
    let start = match last_index(lc.as_slice(), '/') {
        Some(k) => k + 1,
        None => 0,
    };
    proof {
        lemma_last_index_of(locator@, '/');
    }
    let seg = slice_of(lc.as_slice(), start, lc.len());
    assert(seg@ =~= locator@.skip(last_index_of(locator@, '/') + 1));
    let d = match last_index(seg.as_slice(), '.') {
        Some(d) => d,
        None => {
            return String::new();
        },
    };
    if d == 0 || d + 1 >= seg.len() {
        return String::new();
    }
    let mut i: usize = d + 1;
    while i < seg.len()
        invariant
            d < i <= seg@.len(),
            d > 0,
            seg@ == locator@.skip(last_index_of(locator@, '/') + 1),
            d as int == last_index_of(seg@, '.'),
            forall|j: int| d < j < i ==> is_ext_char(#[trigger] seg@[j]),
        decreases seg@.len() - i,
    {
        let c = seg[i];
        if !(('0' <= c && c <= '9') || ('a' <= c && c <= 'z') || ('A' <= c && c <= 'Z')) {
            assert(!is_ext_char(seg@[i as int]));
            let ghost sg = locator@.skip(last_index_of(locator@, '/') + 1);
            assert(sg == seg@);
            assert(!(forall|j: int| d < j < sg.len() ==> is_ext_char(#[trigger] sg[j])));
            assert(file_extension(locator@) =~= Seq::<char>::empty());
            return String::new();
        }
        i = i + 1;
    }
    let ext = slice_of(seg.as_slice(), d, seg.len());
    assert(ext@ =~= seg@.skip(d as int));
    string_of(ext.as_slice())
}

/// Generated names of staged files never repeat within a staging area.
pub proof fn lemma_staged_names_distinct(s: &Staging, i: int, j: int)
    requires
        s.wf(),
        0 <= i < s.assets@.len(),
        0 <= j < s.assets@.len(),
        i != j,
    ensures
        s.assets@[i].generated_filename@ != s.assets@[j].generated_filename@,
{
    assert(s.names()[i] == s.assets@[i].generated_filename@);
    assert(s.names()[j] == s.assets@[j].generated_filename@);
}

/// The asset was staged for this formula: a PNG rendered from it.
pub open spec fn formula_staged(a: StagedAsset, f: Seq<char>) -> bool {
    &&& a.original_locator@ == f
    &&& is_generated_name(a.generated_filename@, ".png"@)
    &&& match a.source {
        AssetSource::Formula(t) => t@ == f,
        _ => false,
    }
}

/// The asset was staged for this image locator of a note at `note_path`.
pub open spec fn image_staged(a: StagedAsset, l: Seq<char>, note_path: Seq<char>) -> bool {
    &&& a.original_locator@ == l
    &&& is_generated_name(a.generated_filename@, file_extension(l))
    &&& is_image_source(a.source, l, parses_as_url(l), note_path)
}

/// Whether the assets added to `old` to make `new` keep the old ones in front.
pub open spec fn extends(new: Seq<StagedAsset>, old: Seq<StagedAsset>) -> bool {
    new.len() >= old.len() && new.take(old.len() as int) == old
}

proof fn lemma_names_push(prev: Seq<StagedAsset>, cur: Seq<StagedAsset>, start: int)
    requires
        0 <= start <= prev.len(),
        cur.len() == prev.len() + 1,
        cur.take(prev.len() as int) == prev,
    ensures
        asset_names(cur.skip(start)) == asset_names(prev.skip(start)).push(
            cur.last().generated_filename@,
        ),
        cur.take(start) == prev.take(start),
{
    assert(asset_names(cur.skip(start)) =~= asset_names(prev.skip(start)).push(
        cur.last().generated_filename@,
    )) by {
        assert forall|i: int| 0 <= i < prev.len() - start implies cur.skip(start)[i]
            == prev.skip(start)[i] by {
            assert(cur.take(prev.len() as int)[start + i] == prev[start + i]);
        }
    }
    assert(cur.take(start) =~= prev.take(start)) by {
        assert forall|i: int| 0 <= i < start implies cur[i] == prev[i] by {
            assert(cur.take(prev.len() as int)[i] == prev[i]);
        }
    }
}

fn image_reference(l: &str) -> (r: String)
    ensures
        r@ == image_ref(l@),
{
    let mut rc: Vec<char> = Vec::new();
    rc.push(']');
    rc.push('(');
    push_all(&mut rc, chars_of(l).as_slice());
    rc.push(')');
    assert(rc@ =~= image_ref(l@));
    string_of(rc.as_slice())
}

fn contains_string(v: &Vec<String>, s: &String) -> (r: bool)
    ensures
        r == string_views(v@).contains(s@),
{
    let mut i: usize = 0;
    while i < v.len()
        invariant
            i <= v@.len(),
            forall|j: int| 0 <= j < i ==> string_views(v@)[j] != s@,
        decreases v@.len() - i,
    {
        assert(string_views(v@)[i as int] == v@[i as int]@);
        if v[i] == *s {
            return true;
        }
        i = i + 1;
    }
    false
}

fn formula_reference(name: &str) -> (r: String)
    ensures
        r@ == formula_ref(name@),
{
    let mut rc = chars_of("![latex-render](");
    let nc = chars_of(name);
    push_all(&mut rc, nc.as_slice());
    rc.push(')');
    assert(rc@ =~= formula_ref(name@));
    string_of(rc.as_slice())
}

impl Staging {
    /// The entries of `all` that are not staged names (when `skip_staged`),
    /// each once, in order.
    fn fresh_locators(&self, all: &Vec<String>, skip_staged: bool) -> (r: Vec<String>)
        ensures
            string_views(r@) == unstaged(
                string_views(all@),
                if skip_staged {
                    self.names()
                } else {
                    Seq::empty()
                },
            ),
    {
        let ghost allv = string_views(all@);
        let ghost names = if skip_staged {
            self.names()
        } else {
            Seq::<Seq<char>>::empty()
        };
        let mut todo: Vec<String> = Vec::new();
        let mut i: usize = 0;
        assert(allv.take(0) =~= Seq::<Seq<char>>::empty());
        assert(string_views(todo@) =~= unstaged(allv.take(0), names));
        while i < all.len()
            invariant
                allv == string_views(all@),
                names == (if skip_staged {
                    self.names()
                } else {
                    Seq::<Seq<char>>::empty()
                }),
                i <= all@.len(),
                string_views(todo@) == unstaged(allv.take(i as int), names),
            decreases all@.len() - i,
        {
            assert(allv.take(i + 1).drop_last() =~= allv.take(i as int));
            assert(allv.take(i + 1).last() == all@[i as int]@);
            let staged = skip_staged && self.has_name(all[i].as_str());
            if !staged && !contains_string(&todo, &all[i]) {
                let ghost prev = todo@;
                todo.push(all[i].clone());
                assert(string_views(todo@) =~= string_views(prev).push(all@[i as int]@));
            }
            i = i + 1;
        }
        assert(allv.take(i as int) =~= allv);
        todo
    }

    /// Stages a PNG for every formula of the card, in order, and replaces
    /// each formula on both sides by a reference to its image.
    pub fn resolve_formulas(&mut self, card: &Card) -> (r: Result<Card, ResolveError>)
        requires
            old(self).wf(),
        ensures
            final(self).wf(),
            final(self).dir == old(self).dir,
            extends(final(self).assets@, old(self).assets@),
            match r {
                Ok(c) => {
                    let fs = unstaged(formulas(card.front@) + formulas(card.back@), Seq::empty());
                    let added = final(self).assets@.skip(old(self).assets@.len() as int);
                    &&& added.len() == fs.len()
                    &&& forall|k: int| 0 <= k < fs.len() ==> formula_staged(#[trigger] added[k], fs[k])
                    &&& c@ == apply_formulas(card@, fs, asset_names(added))
                },
                Err(ResolveError::NameCollision(n)) => final(self).names().contains(n@),
            },
            formulas(card.front@) + formulas(card.back@) == Seq::<Seq<char>>::empty() ==> r is Ok,
    {
        let all = card.get_all_formulas();
        let fs = self.fresh_locators(&all, false);
        let ghost fsv = string_views(fs@);
        assert(string_views(all@) =~= formulas(card.front@) + formulas(card.back@));
        let ghost start = self.assets@.len() as int;
        let mut cur = Card { front: card.front.clone(), back: card.back.clone() };
        let mut k: usize = 0;
        assert(self.assets@.take(start) =~= old(self).assets@);
        assert(fsv.take(0) =~= Seq::<Seq<char>>::empty());
        assert(asset_names(self.assets@.skip(start)) =~= Seq::<Seq<char>>::empty());
        while k < fs.len()
            invariant
                self.wf(),
                self.dir == old(self).dir,
                start == old(self).assets@.len(),
                self.assets@.len() == start + k,
                self.assets@.take(start) == old(self).assets@,
                fsv == string_views(fs@),
                fsv == unstaged(formulas(card.front@) + formulas(card.back@), Seq::empty()),
                k <= fs@.len(),
                forall|m: int| 0 <= m < k ==> formula_staged(#[trigger] self.assets@[start + m], fsv[m]),
                cur@ == apply_formulas(card@, fsv.take(k as int), asset_names(self.assets@.skip(start))),
            decreases fs@.len() - k,
        {
            let f = &fs[k];
            assert(f@ == fsv[k as int]);
            let ghost prev = self.assets@;
            match self.stage(f.as_str(), AssetSource::Formula(f.clone()), ".png") {
                Ok(name) => {
                    let rep = formula_reference(name.as_str());
                    cur = cur.replace_formula(f.as_str(), rep.as_str());
                    proof {
                        lemma_names_push(prev, self.assets@, start);
                        let names = asset_names(self.assets@.skip(start));
                        assert(fsv.take(k + 1).drop_last() =~= fsv.take(k as int));
                        assert(names.drop_last() =~= asset_names(prev.skip(start)));
                        assert(names[k as int] == name@);
                        assert(fsv.take(k + 1).last() == fsv[k as int]);
                        assert(cur@ == apply_formulas(card@, fsv.take(k + 1), names));
                        assert forall|m: int| 0 <= m < k + 1 implies formula_staged(
                            #[trigger] self.assets@[start + m],
                            fsv[m],
                        ) by {
                            if m < k {
                                assert(self.assets@.take(prev.len() as int)[start + m] == prev[start + m]);
                            }
                        }
                    }
                },
                Err(e) => {
                    return Err(e);
                },
            }
            k = k + 1;
        }
        assert(fsv.take(k as int) =~= fsv);
        proof {
            let added = self.assets@.skip(start);
            assert forall|m: int| 0 <= m < fsv.len() implies formula_staged(#[trigger] added[m], fsv[m]) by {
                assert(added[m] == self.assets@[start + m]);
            }
        }
        Ok(cur)
    }
}

impl Staging {
    /// Stages every image of the card whose locator is not already a staged
    /// name, in order, and replaces each such locator on both sides by the
    /// name of its file. Relative locators are read against the directory of
    /// the note at `note_path`.
    pub fn resolve_images(&mut self, card: &Card, note_path: &str) -> (r: Result<
        Card,
        ResolveError,
    >)
        requires
            old(self).wf(),
        ensures
            final(self).wf(),
            final(self).dir == old(self).dir,
            extends(final(self).assets@, old(self).assets@),
            match r {
                Ok(c) => {
                    let ls = unstaged(images(card.front@) + images(card.back@), old(self).names());
                    let added = final(self).assets@.skip(old(self).assets@.len() as int);
                    &&& added.len() == ls.len()
                    &&& forall|k: int|
                        0 <= k < ls.len() ==> image_staged(#[trigger] added[k], ls[k], note_path@)
                    &&& c@ == apply_images(card@, ls, asset_names(added))
                },
                Err(ResolveError::NameCollision(n)) => final(self).names().contains(n@),
            },
            unstaged(images(card.front@) + images(card.back@), old(self).names()).len() == 0
                ==> r is Ok,
    {
        let all = card.get_all_images();
        let todo = self.fresh_locators(&all, true);
        let ghost lsv = string_views(todo@);
        assert(string_views(all@) =~= images(card.front@) + images(card.back@));
        let ghost start = self.assets@.len() as int;
        let mut cur = Card { front: card.front.clone(), back: card.back.clone() };
        let mut k: usize = 0;
        assert(self.assets@.take(start) =~= old(self).assets@);
        assert(lsv.take(0) =~= Seq::<Seq<char>>::empty());
        assert(asset_names(self.assets@.skip(start)) =~= Seq::<Seq<char>>::empty());
        while k < todo.len()
            invariant
                self.wf(),
                self.dir == old(self).dir,
                start == old(self).assets@.len(),
                self.assets@.len() == start + k,
                self.assets@.take(start) == old(self).assets@,
                lsv == string_views(todo@),
                lsv == unstaged(images(card.front@) + images(card.back@), old(self).names()),
                k <= todo@.len(),
                forall|m: int|
                    0 <= m < k ==> image_staged(#[trigger] self.assets@[start + m], lsv[m], note_path@),
                cur@ == apply_images(card@, lsv.take(k as int), asset_names(self.assets@.skip(start))),
            decreases todo@.len() - k,
        {
            let l = &todo[k];
            assert(l@ == lsv[k as int]);
            let ghost prev = self.assets@;
            let source = image_source(l.as_str(), note_path);
            let ext = extension_of(l.as_str());
            match self.stage(l.as_str(), source, ext.as_str()) {
                Ok(name) => {
                    let from = image_reference(l.as_str());
                    let to = image_reference(name.as_str());
                    cur = cur.replace_image_link(from.as_str(), to.as_str());
                    proof {
                        lemma_names_push(prev, self.assets@, start);
                        let names = asset_names(self.assets@.skip(start));
                        assert(lsv.take(k + 1).drop_last() =~= lsv.take(k as int));
                        assert(names.drop_last() =~= asset_names(prev.skip(start)));
                        assert(names[k as int] == name@);
                        assert(lsv.take(k + 1).last() == lsv[k as int]);
                        assert(cur@ == apply_images(card@, lsv.take(k + 1), names));
                        assert forall|m: int| 0 <= m < k + 1 implies image_staged(
                            #[trigger] self.assets@[start + m],
                            lsv[m],
                            note_path@,
                        ) by {
                            if m < k {
                                assert(self.assets@.take(prev.len() as int)[start + m] == prev[start + m]);
                            }
                        }
                    }
                },
                Err(e) => {
                    return Err(e);
                },
            }
            k = k + 1;
        }
        assert(lsv.take(k as int) =~= lsv);
        proof {
            let added = self.assets@.skip(start);
            assert forall|m: int| 0 <= m < lsv.len() implies image_staged(
                #[trigger] added[m],
                lsv[m],
                note_path@,
            ) by {
                assert(added[m] == self.assets@[start + m]);
            }
        }
        Ok(cur)
    }
}

proof fn lemma_formula_ref_facts(f: Seq<char>, name: Seq<char>)
    requires
        is_generated_name(name, ".png"@),
        forall|i: int| !occurs_at(f, formula_ref(name), i),
    ensures
        formula_ref(name).len() > 0,
        delimited(f).len() > 0,
        delimited(f)[0] == '$',
        delimited(f)[delimited(f).len() - 1] == '$',
        forall|i: int| 0 <= i < formula_ref(name).len() ==> formula_ref(name)[i] != '$',
        forall|i: int| !occurs_at(delimited(f), formula_ref(name), i),
{
    reveal_strlit(".png");
    reveal_strlit("![latex-render](");
    let p = delimited(f);
    let r = formula_ref(name);
    assert(forall|i: int| 0 <= i < 36 ==> name[i] != '$');
    assert forall|i: int| 36 <= i < name.len() implies name[i] != '$' by {
        assert(name.skip(36)[i - 36] == name[i]);
    }
    assert forall|i: int| 0 <= i < r.len() implies r[i] != '$' by {
        if i >= 16 && i < 16 + name.len() {
            assert(r[i] == name[i - 16]);
        }
    }
    assert forall|i: int| !occurs_at(p, r, i) by {
        if occurs_at(p, r, i) {
            if i < 2 {
                assert(p.subrange(i, i + r.len())[0] == p[i]);
            } else if i + r.len() > p.len() - 2 {
                assert(p.subrange(i, i + r.len())[r.len() - 1] == p[i + r.len() - 1]);
            } else {
                assert(f.subrange(i - 2, i - 2 + r.len()) =~= p.subrange(i, i + r.len()));
                assert(occurs_at(f, r, i - 2));
            }
        }
    }
}

/// Rewriting a formula is total: once every occurrence of the delimited
/// formula in a card's text is replaced by the reference to a PNG staged
/// under a generated name, no occurrence is left, in that text or in any
/// other card that uses the same formula. The formula must not itself hold
/// that reference.
pub proof fn lemma_formula_rewrite_total(text: Seq<char>, f: Seq<char>, name: Seq<char>)
    requires
        is_generated_name(name, ".png"@),
        forall|i: int| !occurs_at(f, formula_ref(name), i),
    ensures
        forall|q: int|
            !occurs_at(replace_all(text, delimited(f), formula_ref(name)), delimited(f), q),
{
    lemma_formula_ref_facts(f, name);
    lemma_replace_all_total(text, delimited(f), formula_ref(name));
}

/// After the formula pass, none of the formulas it rewrote still stands in
/// delimited form on either side of the card, when each was staged under a
/// generated PNG name and no formula holds one of the references.
pub proof fn lemma_rewritten_formulas_gone(
    c: (Seq<char>, Seq<char>),
    fs: Seq<Seq<char>>,
    names: Seq<Seq<char>>,
)
    requires
        names.len() == fs.len(),
        forall|j: int| 0 <= j < names.len() ==> is_generated_name(#[trigger] names[j], ".png"@),
        forall|k: int, j: int, i: int|
            0 <= k < fs.len() && 0 <= j < names.len() ==> !#[trigger] occurs_at(
                fs[k],
                formula_ref(names[j]),
                i,
            ),
    ensures
        forall|k: int, q: int|
            0 <= k < fs.len() ==> !occurs_at(
                #[trigger] apply_formulas(c, fs, names).0,
                delimited(fs[k]),
                q,
            ) && !occurs_at(apply_formulas(c, fs, names).1, delimited(fs[k]), q),
    decreases fs.len(),
{
    if fs.len() > 0 {
        let n = fs.len() - 1;
        let fs0 = fs.drop_last();
        let names0 = names.drop_last();
        assert forall|k: int, j: int, i: int|
            0 <= k < fs0.len() && 0 <= j < names0.len() implies !#[trigger] occurs_at(
            fs0[k],
            formula_ref(names0[j]),
            i,
        ) by {
            assert(fs0[k] == fs[k] && names0[j] == names[j]);
            assert(!occurs_at(fs[k], formula_ref(names[j]), i));
        }
        assert forall|j: int| 0 <= j < names0.len() implies is_generated_name(
            #[trigger] names0[j],
            ".png"@,
        ) by {
            assert(names0[j] == names[j]);
        }
        lemma_rewritten_formulas_gone(c, fs0, names0);
        let prev = apply_formulas(c, fs0, names0);
        let p2 = delimited(fs[n]);
        let r = formula_ref(names[n]);
        assert(forall|i: int| !occurs_at(fs[n], formula_ref(names[n]), i));
        lemma_formula_rewrite_total(prev.0, fs[n], names[n]);
        lemma_formula_rewrite_total(prev.1, fs[n], names[n]);
        assert(fs.last() == fs[n]);
        assert forall|k: int, q: int| 0 <= k < fs.len() implies !occurs_at(
            #[trigger] apply_formulas(c, fs, names).0,
            delimited(fs[k]),
            q,
        ) && !occurs_at(apply_formulas(c, fs, names).1, delimited(fs[k]), q) by {
            if k < n {
                assert(fs0[k] == fs[k]);
                assert(forall|i: int| !occurs_at(fs[k], formula_ref(names[n]), i));
                lemma_formula_ref_facts(fs[k], names[n]);
                assert(forall|q2: int| !occurs_at(prev.0, delimited(fs0[k]), q2));
                assert(forall|q2: int| !occurs_at(prev.1, delimited(fs0[k]), q2));
                lemma_replace_all_keeps_absent(prev.0, p2, r, delimited(fs[k]));
                lemma_replace_all_keeps_absent(prev.1, p2, r, delimited(fs[k]));
            }
        }
    }
}

/// Resolving the same formula a second time, in the same text or in another
/// card's already rewritten text, changes nothing: the first rewrite left no
/// occurrence to replace.
pub proof fn lemma_formula_rewrite_idempotent(text: Seq<char>, f: Seq<char>, name: Seq<char>)
    requires
        is_generated_name(name, ".png"@),
        forall|i: int| !occurs_at(f, formula_ref(name), i),
    ensures
        ({
            let once = replace_all(text, delimited(f), formula_ref(name));
            replace_all(once, delimited(f), formula_ref(name)) == once
        }),
{
    lemma_formula_rewrite_total(text, f, name);
    lemma_formula_ref_facts(f, name);
    lemma_replace_all_absent(
        replace_all(text, delimited(f), formula_ref(name)),
        delimited(f),
        formula_ref(name),
    );
}

} // verus!
