//! Which files of a path are notes.

use vstd::prelude::*;
use crate::staging::last_index_of;
use crate::text::chars_of;

verus! {

/// What `str::to_lowercase` makes of a text.
pub uninterp spec fn lower_of(s: Seq<char>) -> Seq<char>;

/// Relies on `str::to_lowercase`: the lower-case form of the text, which
/// depends on its characters alone.
#[verifier::external_body]
fn lowercase(s: &str) -> (r: String)
    ensures
        r@ == lower_of(s@),
{
    s.to_lowercase()
}

/// What a path names on disk.
pub enum PathKind {
    File,
    Directory,
    Other,
}

/// Why no notes could be listed.
pub enum PathError {
    /// The path is neither a file nor a directory.
    NotFileOrDirectory,
}

pub open spec fn ends_with(s: Seq<char>, suffix: Seq<char>) -> bool {
    s.len() >= suffix.len() && s.skip(s.len() - suffix.len()) == suffix
}

/// The last component of a path.
pub open spec fn file_name(path: Seq<char>) -> Seq<char> {
    path.skip(last_index_of(path, '/') + 1)
}

/// Whether a lower-cased file name carries the note suffix.
pub open spec fn is_note_name(lowered: Seq<char>) -> bool {
    ends_with(lowered, ".anki.md"@)
}

pub open spec fn is_note_path(path: Seq<char>) -> bool {
    is_note_name(lower_of(file_name(path)))
}

/// The note paths among `paths`, in order.
pub open spec fn note_paths(paths: Seq<Seq<char>>) -> Seq<Seq<char>>
    decreases paths.len(),
{
    if paths.len() == 0 {
        Seq::empty()
    } else {
        let prev = note_paths(paths.drop_last());
        if is_note_path(paths.last()) {
            prev.push(paths.last())
        } else {
            prev
        }
    }
}

/// Whether the lower-cased name ends with `.anki.md`.
pub fn has_note_suffix(lowered: &str) -> (r: bool)
    ensures
        r == is_note_name(lowered@),
{
    let c = chars_of(lowered);
    let suffix = chars_of(".anki.md");
    let n = c.len();
    let m = suffix.len();
    if n < m {
        assert(suffix@ == ".anki.md"@);
        assert(lowered@.len() < ".anki.md"@.len());
        return false;
    }
    let mut j: usize = 0;
    while j < m
        invariant
            n == c@.len(),
            m == suffix@.len(),
            c@ == lowered@,
            suffix@ == ".anki.md"@,
            m <= n,
            j <= m,
            forall|i: int| 0 <= i < j ==> c@[n - m + i] == suffix@[i],
        decreases m - j,
    {
        if c[n - m + j] != suffix[j] {
            assert(c@.skip(n - m)[j as int] != suffix@[j as int]);
            return false;
        }
        j = j + 1;
    }
    assert(c@.skip(n - m) =~= suffix@);
    true
}

/// Whether the file that the path names is a note, by its name.
pub fn is_note_file(path: &str) -> (r: bool)
    ensures
        r == is_note_path(path@),
{
    let c = chars_of(path);
    let mut k: usize = c.len();
    assert(c@.take(k as int) =~= c@);
    while k > 0 && c[k - 1] != '/'
        invariant
            k <= c@.len(),
            last_index_of(c@, '/') == last_index_of(c@.take(k as int), '/'),
        decreases k,
    {
        assert(c@.take(k as int).drop_last() =~= c@.take(k - 1));
        k = k - 1;
    }
    if k > 0 {
        assert(c@.take(k as int).last() == '/');
    }
    let name = crate::text::string_of(crate::text::slice_of(c.as_slice(), k, c.len()).as_slice());
    assert(name@ =~= file_name(path@));
    has_note_suffix(lowercase(name.as_str()).as_str())
}

/// The files to read for a path: the path itself when it is a file, the
/// note files found below it when it is a directory.
pub fn get_all_filenames(path: String, kind: PathKind, found: &Vec<String>) -> (r: Result<
    Vec<String>,
    PathError,
>)
    ensures
        match kind {
            PathKind::File => r matches Ok(v) && v@.len() == 1 && v@[0] == path,
            PathKind::Directory => r matches Ok(v) && crate::text::string_views(v@) == note_paths(
                crate::text::string_views(found@),
            ),
            PathKind::Other => r matches Err(PathError::NotFileOrDirectory),
        },
{
    match kind {
        PathKind::File => {
            let mut v: Vec<String> = Vec::new();
            v.push(path);
            Ok(v)
        },
        PathKind::Directory => {
            let ghost fv = crate::text::string_views(found@);
            let mut v: Vec<String> = Vec::new();
            let mut i: usize = 0;
            assert(fv.take(0) =~= Seq::<Seq<char>>::empty());
            while i < found.len()
                invariant
                    fv == crate::text::string_views(found@),
                    i <= found@.len(),
                    crate::text::string_views(v@) == note_paths(fv.take(i as int)),
                decreases found@.len() - i,
            {
                assert(fv.take(i + 1).drop_last() =~= fv.take(i as int));
                assert(fv.take(i + 1).last() == found@[i as int]@);
                if is_note_file(found[i].as_str()) {
                    let ghost prev = v@;
                    v.push(found[i].clone());
                    assert(crate::text::string_views(v@) =~= crate::text::string_views(prev).push(
                        found@[i as int]@,
                    ));
                }
                i = i + 1;
            }
            assert(fv.take(i as int) =~= fv);
            Ok(v)
        },
        PathKind::Other => Err(PathError::NotFileOrDirectory),
    }
}

} // verus!
