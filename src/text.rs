//! Character-sequence models of the text operations that the card grammar
//! and the reference rewriting are built from.

use vstd::prelude::*;

verus! {

/// Whitespace: the characters with the Unicode `White_Space` property.
pub open spec fn is_ws(c: char) -> bool {
    ('\u{9}' <= c && c <= '\u{D}') || c == ' ' || c == '\u{85}' || c == '\u{A0}'
        || c == '\u{1680}' || ('\u{2000}' <= c && c <= '\u{200A}') || c == '\u{2028}'
        || c == '\u{2029}' || c == '\u{202F}' || c == '\u{205F}' || c == '\u{3000}'
}

pub open spec fn trim_start(s: Seq<char>) -> Seq<char>
    decreases s.len(),
{
    if s.len() > 0 && is_ws(s[0]) {
        trim_start(s.drop_first())
    } else {
        s
    }
}

pub open spec fn trim_end(s: Seq<char>) -> Seq<char>
    decreases s.len(),
{
    if s.len() > 0 && is_ws(s.last()) {
        trim_end(s.drop_last())
    } else {
        s
    }
}

pub open spec fn trim(s: Seq<char>) -> Seq<char> {
    trim_end(trim_start(s))
}

/// Drops every leading `>` of a line.
pub open spec fn strip_quotes(s: Seq<char>) -> Seq<char>
    decreases s.len(),
{
    if s.len() > 0 && s[0] == '>' {
        strip_quotes(s.drop_first())
    } else {
        s
    }
}

/// Whether `p` occurs in `s` at position `i`.
pub open spec fn occurs_at(s: Seq<char>, p: Seq<char>, i: int) -> bool {
    0 <= i && i + p.len() <= s.len() && s.subrange(i, i + p.len()) == p
}

/// The pieces of `s` between newline characters, in order; a text without a
/// newline is one line, and a trailing newline ends with an empty line.
pub open spec fn split_lines(s: Seq<char>) -> Seq<Seq<char>>
    decreases s.len(),
{
    if s.len() == 0 {
        seq![Seq::<char>::empty()]
    } else {
        let prev = split_lines(s.drop_last());
        if s.last() == '\n' {
            prev.push(Seq::<char>::empty())
        } else {
            prev.update(prev.len() - 1, prev.last().push(s.last()))
        }
    }
}

/// The lines joined with one newline between each two.
pub open spec fn join_lines(ls: Seq<Seq<char>>) -> Seq<char>
    decreases ls.len(),
{
    if ls.len() == 0 {
        Seq::<char>::empty()
    } else if ls.len() == 1 {
        ls[0]
    } else {
        join_lines(ls.drop_last()) + seq!['\n'] + ls.last()
    }
}

/// Every non-overlapping occurrence of `p` in `s`, from left to right,
/// replaced by `r`; an empty `p` puts `r` before each character and at the end.
pub open spec fn replace_all(s: Seq<char>, p: Seq<char>, r: Seq<char>) -> Seq<char>
    decreases s.len(),
{
    if p.len() == 0 {
        if s.len() == 0 {
            r
        } else {
            r + seq![s[0]] + replace_all(s.drop_first(), p, r)
        }
    } else if s.len() < p.len() {
        s
    } else if s.take(p.len() as int) == p {
        r + replace_all(s.skip(p.len() as int), p, r)
    } else {
        seq![s[0]] + replace_all(s.drop_first(), p, r)
    }
}

/// Relies on `String::push`: appends one character.
#[verifier::external_body]
fn push_char(s: &mut String, c: char)
    ensures
        final(s)@ == old(s)@.push(c),
{
    s.push(c)
}

/// The characters of a string slice, in order.
pub fn chars_of(s: &str) -> (r: Vec<char>)
    ensures
        r@ == s@,
{
    let n = s.unicode_len();
    let mut r: Vec<char> = Vec::new();
    let mut i: usize = 0;
    while i < n
        invariant
            n == s@.len(),
            i <= n,
            r@ == s@.take(i as int),
        decreases n - i,
    {
        r.push(s.get_char(i));
        i = i + 1;
        assert(r@ =~= s@.take(i as int));
    }
    assert(r@ =~= s@);
    r
}

/// A string holding the given characters.
pub fn string_of(v: &[char]) -> (r: String)
    ensures
        r@ == v@,
{
    let mut r = String::new();
    let mut i: usize = 0;
    while i < v.len()
        invariant
            i <= v@.len(),
            r@ == v@.take(i as int),
        decreases v@.len() - i,
    {
        push_char(&mut r, v[i]);
        i = i + 1;
        assert(r@ =~= v@.take(i as int));
    }
    assert(r@ =~= v@);
    r
}

pub fn is_ws_char(c: char) -> (r: bool)
    ensures
        r == is_ws(c),
{
    ('\u{9}' <= c && c <= '\u{D}') || c == ' ' || c == '\u{85}' || c == '\u{A0}'
        || c == '\u{1680}' || ('\u{2000}' <= c && c <= '\u{200A}') || c == '\u{2028}'
        || c == '\u{2029}' || c == '\u{202F}' || c == '\u{205F}' || c == '\u{3000}'
}

/// The views of a sequence of character vectors.
pub open spec fn views(v: Seq<Vec<char>>) -> Seq<Seq<char>> {
    v.map_values(|l: Vec<char>| l@)
}

/// `trim` of the characters.
pub fn trimmed(v: &[char]) -> (r: Vec<char>)
    ensures
        r@ == trim(v@),
{
    let n = v.len();
    let mut a: usize = 0;
    assert(v@.skip(0) =~= v@);
    while a < n && is_ws_char(v[a])
        invariant
            n == v@.len(),
            a <= n,
            trim_start(v@) == trim_start(v@.skip(a as int)),
        decreases n - a,
    {
        assert(v@.skip(a as int + 1) =~= v@.skip(a as int).drop_first());
        a = a + 1;
    }
    let ghost t = v@.skip(a as int);
    assert(trim_start(t) == t);
    let mut b: usize = n;
    while b > a && is_ws_char(v[b - 1])
        invariant
            n == v@.len(),
            a <= b <= n,
            t == v@.skip(a as int),
            trim_end(t) == trim_end(v@.subrange(a as int, b as int)),
        decreases b - a,
    {
        assert(v@.subrange(a as int, b - 1) =~= v@.subrange(a as int, b as int).drop_last());
        b = b - 1;
    }
    let mut r: Vec<char> = Vec::new();
    let mut i: usize = a;
    while i < b
        invariant
            a <= i <= b <= n,
            n == v@.len(),
            r@ == v@.subrange(a as int, i as int),
        decreases b - i,
    {
        r.push(v[i]);
        i = i + 1;
        assert(r@ =~= v@.subrange(a as int, i as int));
    }
    r
}

/// `strip_quotes` of the characters.
pub fn unquoted(v: &[char]) -> (r: Vec<char>)
    ensures
        r@ == strip_quotes(v@),
{
    let n = v.len();
    let mut a: usize = 0;
    assert(v@.skip(0) =~= v@);
    while a < n && v[a] == '>'
        invariant
            n == v@.len(),
            a <= n,
            strip_quotes(v@) == strip_quotes(v@.skip(a as int)),
        decreases n - a,
    {
        assert(v@.skip(a as int + 1) =~= v@.skip(a as int).drop_first());
        a = a + 1;
    }
    let mut r: Vec<char> = Vec::new();
    let mut i: usize = a;
    while i < n
        invariant
            a <= i <= n,
            n == v@.len(),
            r@ == v@.subrange(a as int, i as int),
        decreases n - i,
    {
        r.push(v[i]);
        i = i + 1;
        assert(r@ =~= v@.subrange(a as int, i as int));
    }
    assert(r@ =~= v@.skip(a as int));
    r
}

/// `split_lines` of the characters.
pub fn lines_of(v: &[char]) -> (r: Vec<Vec<char>>)
    ensures
        views(r@) == split_lines(v@),
{
    let mut done: Vec<Vec<char>> = Vec::new();
    let mut cur: Vec<char> = Vec::new();
    let mut i: usize = 0;
    assert(v@.take(0) =~= Seq::<char>::empty());
    assert(views(done@).push(cur@) =~= split_lines(v@.take(0)));
    while i < v.len()
        invariant
            i <= v@.len(),
            views(done@).push(cur@) == split_lines(v@.take(i as int)),
        decreases v@.len() - i,
    {
        let c = v[i];
        let ghost prev = split_lines(v@.take(i as int));
        assert(v@.take(i as int + 1).drop_last() =~= v@.take(i as int));
        assert(v@.take(i as int + 1).last() == c);
        if c == '\n' {
            let line = cur;
            done.push(line);
            cur = Vec::new();
            assert(views(done@).push(cur@) =~= prev.push(Seq::<char>::empty()));
        } else {
            cur.push(c);
            assert(views(done@).push(cur@) =~= prev.update(prev.len() - 1, prev.last().push(c)));
        }
        i = i + 1;
    }
    assert(v@.take(v@.len() as int) =~= v@);
    done.push(cur);
    assert(views(done@) =~= split_lines(v@));
    done
}

/// `join_lines` of the lines.
pub fn joined(ls: &Vec<Vec<char>>) -> (r: Vec<char>)
    ensures
        r@ == join_lines(views(ls@)),
{
    let mut r: Vec<char> = Vec::new();
    let mut i: usize = 0;
    assert(views(ls@).take(0) =~= Seq::<Seq<char>>::empty());
    while i < ls.len()
        invariant
            i <= ls@.len(),
            r@ == join_lines(views(ls@).take(i as int)),
        decreases ls@.len() - i,
    {
        let ghost prev = views(ls@).take(i as int);
        let ghost next = views(ls@).take(i as int + 1);
        assert(next.drop_last() =~= prev);
        assert(next.last() == ls@[i as int]@);
        if i > 0 {
            r.push('\n');
        }
        let line = &ls[i];
        let mut j: usize = 0;
        let ghost base = r@;
        while j < line.len()
            invariant
                j <= line@.len(),
                r@ == base + line@.take(j as int),
            decreases line@.len() - j,
        {
            r.push(line[j]);
            j = j + 1;
            assert(r@ =~= base + line@.take(j as int));
        }
        assert(line@.take(line@.len() as int) =~= line@);
        if i == 0 {
            assert(r@ =~= join_lines(next));
        }
        i = i + 1;
    }
    assert(views(ls@).take(ls@.len() as int) =~= views(ls@));
    r
}

/// A copy of the characters.
pub fn copied(v: &[char]) -> (r: Vec<char>)
    ensures
        r@ == v@,
{
    let mut r: Vec<char> = Vec::new();
    let mut i: usize = 0;
    while i < v.len()
        invariant
            i <= v@.len(),
            r@ == v@.take(i as int),
        decreases v@.len() - i,
    {
        r.push(v[i]);
        i = i + 1;
        assert(r@ =~= v@.take(i as int));
    }
    assert(r@ =~= v@);
    r
}

/// The characters from `a` up to `b`.
pub fn slice_of(v: &[char], a: usize, b: usize) -> (r: Vec<char>)
    requires
        a <= b <= v@.len(),
    ensures
        r@ == v@.subrange(a as int, b as int),
{
    let mut r: Vec<char> = Vec::new();
    let mut i: usize = a;
    while i < b
        invariant
            a <= i <= b <= v@.len(),
            r@ == v@.subrange(a as int, i as int),
        decreases b - i,
    {
        r.push(v[i]);
        i = i + 1;
        assert(r@ =~= v@.subrange(a as int, i as int));
    }
    r
}

/// Appends the characters of `v` to `out`.
pub fn push_all(out: &mut Vec<char>, v: &[char])
    ensures
        final(out)@ == old(out)@ + v@,
{
    let mut i: usize = 0;
    while i < v.len()
        invariant
            i <= v@.len(),
            out@ == old(out)@ + v@.take(i as int),
        decreases v@.len() - i,
    {
        out.push(v[i]);
        i = i + 1;
        assert(out@ =~= old(out)@ + v@.take(i as int));
    }
    assert(v@.take(v@.len() as int) =~= v@);
}

/// Whether `p` occurs in `s` at position `i`.
pub fn occurs_at_exec(s: &[char], p: &[char], i: usize) -> (r: bool)
    requires
        i + p@.len() <= s@.len(),
    ensures
        r == (s@.subrange(i as int, i + p@.len()) == p@),
{
    let mut j: usize = 0;
    let n = s.len();
    while j < p.len()
        invariant
            n == s@.len(),
            i + p@.len() <= s@.len(),
            j <= p@.len(),
            s@.subrange(i as int, i + j) == p@.take(j as int),
        decreases p@.len() - j,
    {
        if s[i + j] != p[j] {
            assert(s@.subrange(i as int, i + p@.len())[j as int] != p@[j as int]);
            return false;
        }
        j = j + 1;
        assert(s@.subrange(i as int, i + j) =~= p@.take(j as int));
    }
    assert(p@.take(p@.len() as int) =~= p@);
    true
}

/// `replace_all` of the characters.
pub fn replaced(s: &[char], p: &[char], r: &[char]) -> (out: Vec<char>)
    ensures
        out@ == replace_all(s@, p@, r@),
{
    let mut out: Vec<char> = Vec::new();
    let mut i: usize = 0;
    let n = s.len();
    assert(s@.skip(0) =~= s@);
    assert(out@ + replace_all(s@.skip(0), p@, r@) =~= replace_all(s@, p@, r@));
    while i < n
        invariant
            n == s@.len(),
            i <= n,
            replace_all(s@, p@, r@) == out@ + replace_all(s@.skip(i as int), p@, r@),
        decreases n - i,
    {
        let ghost rest = s@.skip(i as int);
        let ghost before = out@;
        if p.len() == 0 {
            push_all(&mut out, r);
            out.push(s[i]);
            assert(rest.drop_first() =~= s@.skip(i + 1));
            assert(out@ + replace_all(s@.skip(i + 1), p@, r@) =~= before + replace_all(
                rest,
                p@,
                r@,
            ));
            i = i + 1;
        } else if n - i < p.len() {
            let tail = slice_of(s, i, n);
            push_all(&mut out, tail.as_slice());
            assert(tail@ =~= rest);
            assert(s@.skip(n as int) =~= Seq::<char>::empty());
            assert(replace_all(s@.skip(n as int), p@, r@) =~= Seq::<char>::empty());
            assert(out@ + replace_all(s@.skip(n as int), p@, r@) =~= before + replace_all(
                rest,
                p@,
                r@,
            ));
            i = n;
        } else if occurs_at_exec(s, p, i) {
            assert(rest.take(p@.len() as int) =~= s@.subrange(i as int, i + p@.len()));
            assert(rest.skip(p@.len() as int) =~= s@.skip(i + p@.len()));
            push_all(&mut out, r);
            assert(out@ + replace_all(s@.skip(i + p@.len()), p@, r@) =~= before + replace_all(
                rest,
                p@,
                r@,
            ));
            i = i + p.len();
        } else {
            assert(rest.take(p@.len() as int) =~= s@.subrange(i as int, i + p@.len()));
            assert(rest.drop_first() =~= s@.skip(i + 1));
            out.push(s[i]);
            assert(out@ + replace_all(s@.skip(i + 1), p@, r@) =~= before + replace_all(
                rest,
                p@,
                r@,
            ));
            i = i + 1;
        }
    }
    let ghost before = out@;
    assert(s@.skip(n as int) =~= Seq::<char>::empty());
    if p.len() == 0 {
        push_all(&mut out, r);
    }
    assert(out@ =~= before + replace_all(s@.skip(n as int), p@, r@));
    out
}

/// The views of a sequence of strings.
pub open spec fn string_views(v: Seq<String>) -> Seq<Seq<char>> {
    v.map_values(|s: String| s@)
}

/// Appends one string for each character vector, in order.
pub fn push_strings(out: &mut Vec<String>, vs: &Vec<Vec<char>>)
    ensures
        string_views(final(out)@) == string_views(old(out)@) + views(vs@),
{
    let mut i: usize = 0;
    while i < vs.len()
        invariant
            i <= vs@.len(),
            string_views(out@) == string_views(old(out)@) + views(vs@).take(i as int),
        decreases vs@.len() - i,
    {
        let ghost prev = out@;
        let s = string_of(vs[i].as_slice());
        out.push(s);
        assert(string_views(out@) =~= string_views(prev).push(vs@[i as int]@));
        i = i + 1;
        assert(views(vs@).take(i as int) =~= views(vs@).take(i - 1).push(vs@[i - 1]@));
        assert(string_views(out@) =~= string_views(old(out)@) + views(vs@).take(i as int));
    }
    assert(views(vs@).take(vs@.len() as int) =~= views(vs@));
}

/// The first position from `k` on where `p` occurs, or -1.
pub open spec fn find_from(s: Seq<char>, p: Seq<char>, k: int) -> int
    decreases s.len() - k,
{
    if k < 0 || k >= s.len() || k + p.len() > s.len() {
        -1
    } else if occurs_at(s, p, k) {
        k
    } else {
        find_from(s, p, k + 1)
    }
}

pub proof fn lemma_find_from(s: Seq<char>, p: Seq<char>, k: int)
    requires
        0 <= k,
        p.len() > 0,
    ensures
        find_from(s, p, k) == -1 || (k <= find_from(s, p, k) && occurs_at(s, p, find_from(s, p, k))),
        forall|i: int|
            k <= i && (find_from(s, p, k) == -1 || i < find_from(s, p, k)) ==> !occurs_at(s, p, i),
    decreases s.len() - k,
{
    if !(k < 0 || k >= s.len() || k + p.len() > s.len()) && !occurs_at(s, p, k) {
        lemma_find_from(s, p, k + 1);
    }
}

proof fn lemma_replace_prefix(t: Seq<char>, p: Seq<char>, r: Seq<char>, m: int)
    requires
        p.len() > 0,
        0 <= m <= t.len(),
        forall|i: int| 0 <= i < m ==> !occurs_at(t, p, i),
    ensures
        replace_all(t, p, r) == t.take(m) + replace_all(t.skip(m), p, r),
    decreases m,
{
    if m == 0 {
        assert(t.skip(0) =~= t);
        assert(t.take(0) + replace_all(t, p, r) =~= replace_all(t, p, r));
    } else if t.len() < p.len() {
        assert(t.skip(m).len() < p.len());
        assert(t.take(m) + t.skip(m) =~= t);
    } else {
        assert(!occurs_at(t, p, 0));
        assert(t.subrange(0, p.len() as int) =~= t.take(p.len() as int));
        let t1 = t.drop_first();
        assert forall|i: int| 0 <= i < m - 1 implies !occurs_at(t1, p, i) by {
            if i + p.len() <= t1.len() {
                assert(t1.subrange(i, i + p.len()) =~= t.subrange(i + 1, i + 1 + p.len()));
            }
            assert(!occurs_at(t, p, i + 1));
        }
        lemma_replace_prefix(t1, p, r, m - 1);
        assert(t1.skip(m - 1) =~= t.skip(m));
        assert(seq![t[0]] + t1.take(m - 1) =~= t.take(m));
    }
}

/// Replacing every occurrence of `p` leaves none behind, when the
/// replacement holds neither the first nor the last character of `p` and
/// does not occur inside `p`.
pub proof fn lemma_replace_all_total(s: Seq<char>, p: Seq<char>, r: Seq<char>)
    requires
        p.len() > 0,
        r.len() > 0,
        forall|i: int| 0 <= i < r.len() ==> r[i] != p[0] && r[i] != p[p.len() - 1],
        forall|i: int| !occurs_at(p, r, i),
    ensures
        forall|q: int| !occurs_at(replace_all(s, p, r), p, q),
    decreases s.len(),
{
    let out = replace_all(s, p, r);
    if s.len() < p.len() {
        assert forall|q: int| !occurs_at(out, p, q) by {}
    } else if s.take(p.len() as int) == p {
        let rest = s.skip(p.len() as int);
        lemma_replace_all_total(rest, p, r);
        let ro = replace_all(rest, p, r);
        assert(out == r + ro);
        assert forall|q: int| !occurs_at(out, p, q) by {
            if occurs_at(out, p, q) {
                if q < r.len() {
                    assert(out.subrange(q, q + p.len())[0] == out[q]);
                    assert(out[q] == r[q]);
                } else {
                    assert(out.subrange(q, q + p.len()) =~= ro.subrange(
                        q - r.len(),
                        q - r.len() + p.len(),
                    ));
                    assert(occurs_at(ro, p, q - r.len()));
                }
            }
        }
    } else {
        let rest = s.drop_first();
        lemma_replace_all_total(rest, p, r);
        let ro = replace_all(rest, p, r);
        assert(out == seq![s[0]] + ro);
        assert forall|q: int| !occurs_at(out, p, q) by {
            if occurs_at(out, p, q) {
                if q >= 1 {
                    assert(out.subrange(q, q + p.len()) =~= ro.subrange(q - 1, q - 1 + p.len()));
                    assert(occurs_at(ro, p, q - 1));
                } else {
                    assert(out.subrange(0, p.len() as int) == p);
                    assert(s.subrange(0, p.len() as int) =~= s.take(p.len() as int));
                    lemma_find_from(s, p, 0);
                    let m = find_from(s, p, 0);
                    if m == -1 || m >= p.len() {
                        let cut = if m == -1 {
                            p.len() as int
                        } else {
                            m
                        };
                        lemma_replace_prefix(s, p, r, cut);
                        assert(out.subrange(0, p.len() as int) =~= s.take(p.len() as int));
                    } else {
                        lemma_replace_prefix(s, p, r, m);
                        let tail = s.skip(m);
                        assert(tail.take(p.len() as int) =~= s.subrange(m, m + p.len()));
                        assert(replace_all(tail, p, r) == r + replace_all(
                            tail.skip(p.len() as int),
                            p,
                            r,
                        ));
                        assert(forall|i: int|
                            0 <= i < r.len() ==> out[m + i] == r[i]);
                        if m + r.len() <= p.len() {
                            assert(p.subrange(m, m + r.len()) =~= r) by {
                                assert forall|i: int| 0 <= i < r.len() implies p.subrange(
                                    m,
                                    m + r.len(),
                                )[i] == r[i] by {
                                    assert(out.subrange(0, p.len() as int)[m + i] == out[m + i]);
                                }
                            }
                            assert(occurs_at(p, r, m));
                        } else {
                            let k = p.len() - 1 - m;
                            assert(out.subrange(0, p.len() as int)[p.len() - 1] == out[m + k]);
                            assert(r[k] == p[p.len() - 1]);
                        }
                    }
                }
            }
        }
    }
}

/// Replacing every occurrence of `p2` creates no occurrence of `p` in a text
/// that has none, when the replacement holds neither the first nor the last
/// character of `p` and does not occur inside `p`.
pub proof fn lemma_replace_all_keeps_absent(s: Seq<char>, p2: Seq<char>, r: Seq<char>, p: Seq<char>)
    requires
        p.len() > 0,
        p2.len() > 0,
        r.len() > 0,
        forall|i: int| 0 <= i < r.len() ==> r[i] != p[0] && r[i] != p[p.len() - 1],
        forall|i: int| !occurs_at(p, r, i),
        forall|q: int| !occurs_at(s, p, q),
    ensures
        forall|q: int| !occurs_at(replace_all(s, p2, r), p, q),
    decreases s.len(),
{
    let out = replace_all(s, p2, r);
    if s.len() < p2.len() {
        assert(out == s);
    } else if s.take(p2.len() as int) == p2 {
        let rest = s.skip(p2.len() as int);
        assert forall|q: int| !occurs_at(rest, p, q) by {
            if occurs_at(rest, p, q) {
                assert(s.subrange(q + p2.len(), q + p2.len() + p.len()) =~= rest.subrange(
                    q,
                    q + p.len(),
                ));
                assert(occurs_at(s, p, q + p2.len()));
            }
        }
        lemma_replace_all_keeps_absent(rest, p2, r, p);
        let ro = replace_all(rest, p2, r);
        assert(out == r + ro);
        assert forall|q: int| !occurs_at(out, p, q) by {
            if occurs_at(out, p, q) {
                if q < r.len() {
                    assert(out.subrange(q, q + p.len())[0] == out[q]);
                    assert(out[q] == r[q]);
                } else {
                    assert(out.subrange(q, q + p.len()) =~= ro.subrange(
                        q - r.len(),
                        q - r.len() + p.len(),
                    ));
                    assert(occurs_at(ro, p, q - r.len()));
                }
            }
        }
    } else {
        let rest = s.drop_first();
        assert forall|q: int| !occurs_at(rest, p, q) by {
            if occurs_at(rest, p, q) {
                assert(s.subrange(q + 1, q + 1 + p.len()) =~= rest.subrange(q, q + p.len()));
                assert(occurs_at(s, p, q + 1));
            }
        }
        lemma_replace_all_keeps_absent(rest, p2, r, p);
        let ro = replace_all(rest, p2, r);
        assert(out == seq![s[0]] + ro);
        assert forall|q: int| !occurs_at(out, p, q) by {
            if occurs_at(out, p, q) {
                if q >= 1 {
                    assert(out.subrange(q, q + p.len()) =~= ro.subrange(q - 1, q - 1 + p.len()));
                    assert(occurs_at(ro, p, q - 1));
                } else {
                    assert(out.subrange(0, p.len() as int) == p);
                    lemma_find_from(s, p2, 0);
                    let m = find_from(s, p2, 0);
                    if m == -1 {
                        lemma_replace_prefix(s, p2, r, s.len() as int);
                        assert(s.skip(s.len() as int) =~= Seq::<char>::empty());
                        assert(s.take(s.len() as int) =~= s);
                        assert(out == s);
                        assert(occurs_at(s, p, 0));
                    } else if m >= p.len() {
                        lemma_replace_prefix(s, p2, r, m);
                        assert(out.subrange(0, p.len() as int) =~= s.subrange(0, p.len() as int));
                        assert(occurs_at(s, p, 0));
                    } else {
                        lemma_replace_prefix(s, p2, r, m);
                        let tail = s.skip(m);
                        assert(tail.take(p2.len() as int) =~= s.subrange(m, m + p2.len()));
                        assert(replace_all(tail, p2, r) == r + replace_all(
                            tail.skip(p2.len() as int),
                            p2,
                            r,
                        ));
                        assert(forall|i: int| 0 <= i < r.len() ==> out[m + i] == r[i]);
                        if m + r.len() <= p.len() {
                            assert(p.subrange(m, m + r.len()) =~= r) by {
                                assert forall|i: int| 0 <= i < r.len() implies p.subrange(
                                    m,
                                    m + r.len(),
                                )[i] == r[i] by {
                                    assert(out.subrange(0, p.len() as int)[m + i] == out[m + i]);
                                }
                            }
                            assert(occurs_at(p, r, m));
                        } else {
                            let k = p.len() - 1 - m;
                            assert(out.subrange(0, p.len() as int)[p.len() - 1] == out[m + k]);
                            assert(r[k] == p[p.len() - 1]);
                        }
                    }
                }
            }
        }
    }
}

/// Replacing a pattern that does not occur leaves the text as it is.
pub proof fn lemma_replace_all_absent(s: Seq<char>, p: Seq<char>, r: Seq<char>)
    requires
        p.len() > 0,
        forall|q: int| !occurs_at(s, p, q),
    ensures
        replace_all(s, p, r) == s,
    decreases s.len(),
{
    if s.len() >= p.len() {
        assert(s.subrange(0, p.len() as int) =~= s.take(p.len() as int));
        assert(!occurs_at(s, p, 0));
        let rest = s.drop_first();
        assert forall|q: int| !occurs_at(rest, p, q) by {
            if occurs_at(rest, p, q) {
                assert(s.subrange(q + 1, q + 1 + p.len()) =~= rest.subrange(q, q + p.len()));
                assert(occurs_at(s, p, q + 1));
            }
        }
        lemma_replace_all_absent(rest, p, r);
        assert(seq![s[0]] + rest =~= s);
    }
}

} // verus!
