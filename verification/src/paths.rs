//! Relative image paths, such as `0/amb_00_5ca_thumb_170.png`, and the links
//! and counterparts computed from them.
//!
//! Paths are read as `std::path::Path` reads them on Windows, the platform
//! whose mail folder the program serves. `'/'` and `'\\'` both separate
//! components, and a drive (`"C:"`) may come first. After the drive, the
//! text is read with every separator written as `'/'`: a leading `'/'` is
//! the root, a leading `"."` followed by `'/'` (or alone) is the current
//! directory, and in the rest empty parts (repeated or trailing separators)
//! and `"."` parts are not components. The file name is the last component
//! unless it is `".."`; the parent is the text before the last component,
//! without the separators and `"."` parts that end it; the stem and
//! extension split the file name at its last `'.'`, unless that dot is its
//! first character. A name is pushed onto a path with `'\\'` between them.
//! The other prefixes of Windows (UNC, device and verbatim paths, which
//! start with two separators) are not read here: the functions that depend
//! on them ask for a path without them (`simple_prefix`).

use vstd::prelude::*;
use crate::text::{
    slashed, copy_chars, push_all, lacks_char, split_on, lemma_split_on_append, lemma_split_on_single,
};

verus! {

/// The index of the last `c` in `s`, or -1 when there is none.
pub open spec fn last_index_of(s: Seq<char>, c: char) -> int
    decreases s.len(),
{
    if s.len() == 0 {
        -1
    } else if s.last() == c {
        s.len() - 1
    } else {
        last_index_of(s.drop_last(), c)
    }
}

/// What `last_index_of` answers.
pub proof fn lemma_last_index_of(s: Seq<char>, c: char)
    ensures
        -1 <= last_index_of(s, c) < s.len(),
        last_index_of(s, c) >= 0 ==> s[last_index_of(s, c)] == c,
        forall|j: int| last_index_of(s, c) < j < s.len() ==> s[j] != c,
    decreases s.len(),
{
    if s.len() > 0 && s.last() != c {
        lemma_last_index_of(s.drop_last(), c);
        let r = last_index_of(s, c);
        assert forall|j: int| r < j < s.len() implies s[j] != c by {
            if j < s.len() - 1 {
                assert(s[j] == s.drop_last()[j]);
            }
        }
        if r >= 0 {
            assert(s[r] == s.drop_last()[r]);
        }
    }
}

proof fn lemma_last_index_of_take(s: Seq<char>, c: char, i: int)
    requires
        0 <= i <= s.len(),
        forall|j: int| i <= j < s.len() ==> s[j] != c,
    ensures
        last_index_of(s, c) == last_index_of(s.take(i), c),
    decreases s.len() - i,
{
    if i == s.len() {
        assert(s.take(i) =~= s);
    } else {
        lemma_last_index_of_take(s.drop_last(), c, i);
        assert(s.drop_last().take(i) =~= s.take(i));
    }
}

/// The index of the last `c` in `s`.
pub fn last_index(s: &Vec<char>, c: char) -> (r: Option<usize>)
    ensures
        match r {
            Some(k) => k == last_index_of(s@, c),
            None => last_index_of(s@, c) == -1,
        },
{
    let mut i: usize = s.len();
    while i > 0 && s[i - 1] != c
        invariant
            i <= s.len(),
            forall|j: int| i <= j < s.len() ==> s@[j] != c,
        decreases i,
    {
        i -= 1;
    }
    proof {
        lemma_last_index_of_take(s@, c, i as int);
    }
    if i == 0 {
        assert(s@.take(0).len() == 0);
        None
    } else {
        assert(s@.take(i as int).last() == c);
        Some(i - 1)
    }
}

/// The characters of `s` from index `a` to index `b`.
pub fn slice_chars(s: &Vec<char>, a: usize, b: usize) -> (r: Vec<char>)
    requires
        a <= b <= s.len(),
    ensures
        r@ == s@.subrange(a as int, b as int),
{
    let mut r: Vec<char> = Vec::new();
    let mut i: usize = a;
    while i < b
        invariant
            a <= i <= b <= s.len(),
            r@ == s@.subrange(a as int, i as int),
        decreases b - i,
    {
        r.push(s[i]);
        i += 1;
        assert(r@ =~= s@.subrange(a as int, i as int));
    }
    r
}

/// The characters of `".."`.
pub open spec fn dot_dot() -> Seq<char> {
    seq!['.', '.']
}

fn is_dot_dot(s: &Vec<char>) -> (r: bool)
    ensures
        r == (s@ == dot_dot()),
{
    let r = s.len() == 2 && s[0] == '.' && s[1] == '.';
    if r {
        assert(s@ =~= dot_dot());
    }
    r
}

/// The `'/'`-separated text starts at the root.
pub open spec fn has_root(p: Seq<char>) -> bool {
    p.len() > 0 && p[0] == '/'
}

/// The `'/'`-separated text starts with the current directory: a `"."` alone or before a
/// `'/'`, with no root before it.
pub open spec fn starts_cur_dir(p: Seq<char>) -> bool {
    !has_root(p) && p.len() > 0 && p[0] == '.' && (p.len() == 1 || p[1] == '/')
}

/// Where the body of the path (what follows the root or the leading current
/// directory) starts.
pub open spec fn body_start(p: Seq<char>) -> int {
    if has_root(p) || starts_cur_dir(p) {
        1
    } else {
        0
    }
}

/// The characters of `"."`.
pub open spec fn dot() -> Seq<char> {
    seq!['.']
}

/// A body without the empty and `"."` parts at its end.
pub open spec fn trim_back(b: Seq<char>) -> Seq<char>
    decreases b.len(),
{
    if b.len() == 0 {
        b
    } else {
        let k = last_index_of(b, '/');
        let seg = b.skip(k + 1);
        if seg.len() == 0 || seg == dot() {
            proof {
                lemma_last_index_of(b, '/');
            }
            trim_back(b.take(if k < 0 { 0 } else { k }))
        } else {
            b
        }
    }
}

/// The body of the path up to the end of its last component.
pub open spec fn trimmed_body(p: Seq<char>) -> Seq<char> {
    trim_back(p.skip(body_start(p)))
}

/// Where the last component starts in the trimmed body.
pub open spec fn name_offset(p: Seq<char>) -> int {
    last_index_of(trimmed_body(p), '/') + 1
}

/// The last component of the body (empty when the body has none).
pub open spec fn last_component(p: Seq<char>) -> Seq<char> {
    trimmed_body(p).skip(name_offset(p))
}

/// The file name of a `'/'`-separated text: its last component, unless that is `".."`.
pub open spec fn slashed_file_name(p: Seq<char>) -> Option<Seq<char>> {
    if trimmed_body(p).len() == 0 || last_component(p) == dot_dot() {
        None
    } else {
        Some(last_component(p))
    }
}

/// The parent of a `'/'`-separated text: the text without its last component and without
/// the separators and `"."` parts that then end it; `""` for a path that is
/// only the current directory; none for the root alone and the empty path.
pub open spec fn slashed_parent(p: Seq<char>) -> Option<Seq<char>> {
    if trimmed_body(p).len() > 0 {
        let k = name_offset(p) - 1;
        Some(p.take(body_start(p)) + trim_back(trimmed_body(p).take(if k < 0 { 0 } else { k })))
    } else if starts_cur_dir(p) {
        Some(Seq::empty())
    } else {
        None
    }
}

/// The stem of a file name: the text before its last `'.'`, or the whole
/// name when that dot is its first character, it has none, or it is `".."`.
pub open spec fn stem_of(name: Seq<char>) -> Seq<char> {
    let d = last_index_of(name, '.');
    if name == dot_dot() || d <= 0 {
        name
    } else {
        name.take(d)
    }
}

/// The extension of a file name: the text after its last `'.'`, unless that
/// dot is its first character, it has none, or it is `".."`.
pub open spec fn extension_of_name(name: Seq<char>) -> Option<Seq<char>> {
    let d = last_index_of(name, '.');
    if name == dot_dot() || d <= 0 {
        None
    } else {
        Some(name.skip(d + 1))
    }
}

/// The file stem of a path.
pub open spec fn file_stem_of(p: Seq<char>) -> Option<Seq<char>> {
    match file_name_of(p) {
        Some(n) => Some(stem_of(n)),
        None => None,
    }
}

/// The extension of a path.
pub open spec fn extension_of(p: Seq<char>) -> Option<Seq<char>> {
    match file_name_of(p) {
        Some(n) => extension_of_name(n),
        None => None,
    }
}

/// `name` pushed onto the `'/'`-separated `base`: `name` itself when it starts with `'/'`,
/// else `base` and `name` with one `'/'` between them where `base` is not
/// empty and does not end with one.
pub open spec fn slashed_pushed(base: Seq<char>, name: Seq<char>) -> Seq<char> {
    if name.len() > 0 && name[0] == '/' {
        name
    } else if base.len() > 0 && base.last() != '/' {
        base + seq!['/'] + name
    } else {
        base + name
    }
}

/// Where the body of the path starts.
fn body_start_exec(p: &Vec<char>) -> (r: usize)
    ensures
        r == body_start(p@),
        r <= p.len(),
{
    if p.len() > 0 && p[0] == '/' {
        1
    } else if p.len() > 0 && p[0] == '.' && (p.len() == 1 || p[1] == '/') {
        1
    } else {
        0
    }
}

/// Where the body of `p` that starts at `start` ends once the empty and
/// `"."` parts at its end are dropped.
fn trimmed_end(p: &Vec<char>, start: usize) -> (e: usize)
    requires
        start <= p.len(),
    ensures
        start <= e <= p.len(),
        p@.subrange(start as int, e as int) == trim_back(p@.skip(start as int)),
{
    let mut e: usize = p.len();
    assert(p@.subrange(start as int, e as int) =~= p@.skip(start as int));
    loop
        invariant
            start <= e <= p.len(),
            trim_back(p@.skip(start as int)) == trim_back(p@.subrange(start as int, e as int)),
        ensures
            start <= e <= p.len(),
            p@.subrange(start as int, e as int) == trim_back(p@.skip(start as int)),
        decreases e,
    {
        if e == start {
            assert(p@.subrange(start as int, e as int) =~= Seq::<char>::empty());
            break;
        }
        let s = slice_chars(p, start, e);
        proof {
            lemma_last_index_of(s@, '/');
        }
        let slen = s.len();
        let (from, cut) = match last_index(&s, '/') {
            Some(k) => {
                assert(k < slen);
                (k + 1, k)
            },
            None => (0, 0),
        };
        let seg_len = slen - from;
        assert(s@.skip(from as int).len() == seg_len);
        if seg_len == 0 || (seg_len == 1 && s[from] == '.') {
            if seg_len == 1 {
                assert(s@.skip(from as int) =~= dot());
            }
            assert(s@.take(cut as int) =~= p@.subrange(start as int, start + cut));
            e = start + cut;
        } else {
            assert(s@.skip(from as int) != dot()) by {
                if seg_len == 1 {
                    assert(s@.skip(from as int)[0] == s@[from as int]);
                }
            }
            break;
        }
    }
    e
}

/// The file name of a path.
pub fn slashed_file_name_chars(p: &Vec<char>) -> (r: Option<Vec<char>>)
    ensures
        match r {
            Some(n) => slashed_file_name(p@) == Some(n@),
            None => slashed_file_name(p@) is None,
        },
{
    let start = body_start_exec(p);
    let e = trimmed_end(p, start);
    if e == start {
        return None;
    }
    let t = slice_chars(p, start, e);
    proof {
        lemma_last_index_of(t@, '/');
    }
    let tlen = t.len();
    let from = match last_index(&t, '/') {
        Some(k) => {
            assert(k < tlen);
            k + 1
        },
        None => 0,
    };
    let n = slice_chars(&t, from, tlen);
    assert(n@ =~= last_component(p@));
    if is_dot_dot(&n) {
        None
    } else {
        Some(n)
    }
}

/// The parent of a path.
pub fn slashed_parent_chars(p: &Vec<char>) -> (r: Option<Vec<char>>)
    ensures
        match r {
            Some(q) => slashed_parent(p@) == Some(q@),
            None => slashed_parent(p@) is None,
        },
{
    let start = body_start_exec(p);
    let e = trimmed_end(p, start);
    if e == start {
        if p.len() > 0 && p[0] == '.' && (p.len() == 1 || p[1] == '/') {
            let empty: Vec<char> = Vec::new();
            assert(empty@ =~= Seq::<char>::empty());
            return Some(empty);
        }
        return None;
    }
    let t = slice_chars(p, start, e);
    proof {
        lemma_last_index_of(t@, '/');
    }
    let cut = match last_index(&t, '/') {
        Some(k) => k,
        None => 0,
    };
    let rest = slice_chars(&t, 0, cut);
    let f = trimmed_end(&rest, 0);
    assert(rest@.skip(0) =~= rest@);
    let mut q = slice_chars(p, 0, start);
    let kept = slice_chars(&rest, 0, f);
    assert(rest@ =~= t@.take(cut as int));
    push_all(&mut q, &kept);
    assert(q@ =~= p@.take(body_start(p@)) + trim_back(trimmed_body(p@).take(cut as int)));
    Some(q)
}

/// The stem and extension of a file name.
pub fn stem_and_extension(name: &Vec<char>) -> (r: (Vec<char>, Option<Vec<char>>))
    ensures
        r.0@ == stem_of(name@),
        match r.1 {
            Some(e) => extension_of_name(name@) == Some(e@),
            None => extension_of_name(name@) is None,
        },
{
    proof {
        lemma_last_index_of(name@, '.');
    }
    if is_dot_dot(name) {
        return (copy_chars(name), None);
    }
    let nlen = name.len();
    match last_index(name, '.') {
        Some(d) => {
            assert(d < nlen);
            if d == 0 {
                (copy_chars(name), None)
            } else {
                let stem = slice_chars(name, 0, d);
                let ext = slice_chars(name, d + 1, name.len());
                assert(stem@ =~= name@.take(d as int));
                assert(ext@ =~= name@.skip(d + 1));
                (stem, Some(ext))
            }
        },
        None => (copy_chars(name), None),
    }
}

/// Text without `c` added at the end leaves the last `c` where it was.
pub proof fn lemma_last_index_of_append(x: Seq<char>, y: Seq<char>, c: char)
    requires
        forall|j: int| 0 <= j < y.len() ==> y[j] != c,
    ensures
        last_index_of(x + y, c) == last_index_of(x, c),
    decreases y.len(),
{
    if y.len() == 0 {
        assert(x + y =~= x);
    } else {
        let y1 = y.drop_last();
        assert forall|j: int| 0 <= j < y1.len() implies y1[j] != c by {
            assert(y1[j] == y[j]);
        }
        lemma_last_index_of_append(x, y1, c);
        assert((x + y).drop_last() =~= x + y1);
    }
}

/// `last_index_of` is the one index with its properties.
pub proof fn lemma_last_index_unique(s: Seq<char>, c: char, i: int)
    requires
        -1 <= i < s.len(),
        i >= 0 ==> s[i] == c,
        forall|j: int| i < j < s.len() ==> s[j] != c,
    ensures
        last_index_of(s, c) == i,
    decreases s.len(),
{
    if s.len() > 0 && i < s.len() - 1 {
        let s1 = s.drop_last();
        assert forall|j: int| i < j < s1.len() implies s1[j] != c by {
            assert(s1[j] == s[j]);
        }
        if i >= 0 {
            assert(s1[i] == s[i]);
        }
        lemma_last_index_unique(s1, c, i);
    }
}

/// A path whose text after the last `'/'` is a plain name has that name as
/// its file name.
pub proof fn lemma_plain_last_segment(p: Seq<char>)
    requires
        p.skip(last_index_of(p, '/') + 1).len() > 0,
        p.skip(last_index_of(p, '/') + 1) != dot(),
        p.skip(last_index_of(p, '/') + 1) != dot_dot(),
    ensures
        slashed_file_name(p) == Some(p.skip(last_index_of(p, '/') + 1)),
{
    lemma_last_index_of(p, '/');
    let k = last_index_of(p, '/');
    let s = p.skip(k + 1);
    let bs = body_start(p);
    let b = p.skip(bs);
    if bs == 1 {
        if p.len() == 1 {
            assert(s =~= dot());
        }
        assert(k >= 0) by {
            if has_root(p) {
                assert(p[0] == '/');
            } else {
                assert(p[1] == '/');
            }
        }
    }
    assert forall|j: int| k - bs < j < b.len() implies b[j] != '/' by {
        assert(b[j] == p[j + bs]);
    }
    if k - bs >= 0 {
        assert(b[k - bs] == p[k]);
    }
    lemma_last_index_unique(b, '/', k - bs);
    assert(b.skip(k - bs + 1) =~= s);
    assert(trim_back(b) == b);
}

/// The empty and `"."` parts of a list of parts dropped.
pub open spec fn plain_parts(segs: Seq<Seq<char>>) -> Seq<Seq<char>>
    decreases segs.len(),
{
    if segs.len() == 0 {
        Seq::empty()
    } else {
        let r = plain_parts(segs.drop_last());
        let x = segs.last();
        if x.len() > 0 && x != dot() {
            r.push(x)
        } else {
            r
        }
    }
}

/// The components of a `'/'`-separated text, as `Path::components` yields them: the root or
/// the leading current directory, then the non-empty parts other than `"."`.
pub open spec fn slashed_components(p: Seq<char>) -> Seq<Seq<char>> {
    let marker = if has_root(p) {
        seq![seq!['/']]
    } else if starts_cur_dir(p) {
        seq![dot()]
    } else {
        Seq::empty()
    };
    marker + plain_parts(split_on(p.skip(body_start(p)), '/'))
}

/// A name that is plain in a `'/'`-separated text: not empty, without `'/'`, and not `"."`.
pub open spec fn slashed_plain_name(n: Seq<char>) -> bool {
    n.len() > 0 && n != dot() && forall|j: int| 0 <= j < n.len() ==> n[j] != '/'
}

/// The plain parts of a list with one more part.
proof fn lemma_plain_parts_push(segs: Seq<Seq<char>>, x: Seq<char>)
    ensures
        plain_parts(segs.push(x)) == if x.len() > 0 && x != dot() {
            plain_parts(segs).push(x)
        } else {
            plain_parts(segs)
        },
{
    assert(segs.push(x).drop_last() =~= segs);
}

/// Splitting a text whose last part is `seg` adds `seg` after the parts of
/// the text before it.
proof fn lemma_last_seg_split(t: Seq<char>)
    requires
        t.len() > 0,
    ensures
        ({
            let k = last_index_of(t, '/');
            let seg = t.skip(k + 1);
            plain_parts(split_on(t, '/')) == if seg.len() > 0 && seg != dot() {
                plain_parts(split_on(t.take(if k < 0 { 0 } else { k }), '/')).push(seg)
            } else {
                plain_parts(split_on(t.take(if k < 0 { 0 } else { k }), '/'))
            }
        }),
{
    lemma_last_index_of(t, '/');
    let k = last_index_of(t, '/');
    let seg = t.skip(k + 1);
    assert(lacks_char(seg, '/')) by {
        assert forall|i: int| 0 <= i < seg.len() implies seg[i] != '/' by {
            assert(seg[i] == t[k + 1 + i]);
        }
    }
    if k >= 0 {
        assert(t =~= t.take(k) + seq!['/'] + seg);
        lemma_split_on_append(t.take(k), '/', seg);
        lemma_plain_parts_push(split_on(t.take(k), '/'), seg);
    } else {
        lemma_plain_parts_push(Seq::<Seq<char>>::empty(), seg);
        lemma_plain_parts_push(Seq::<Seq<char>>::empty(), Seq::<char>::empty());
        assert(Seq::<Seq<char>>::empty().push(t) =~= seq![t]);
        assert(Seq::<Seq<char>>::empty().push(Seq::<char>::empty()) =~= seq![Seq::<char>::empty()]);
        assert(t.skip(0) =~= t);
        lemma_split_on_single(t, '/');
        assert(t.take(0) =~= Seq::<char>::empty());
        assert(split_on(Seq::<char>::empty(), '/') =~= seq![Seq::<char>::empty()]);
        assert(seq![t].drop_last() =~= Seq::<Seq<char>>::empty());
        assert(seq![Seq::<char>::empty()].drop_last() =~= Seq::<Seq<char>>::empty());
    }
}

/// What `trim_back` keeps: a prefix of the body, with the same plain parts,
/// whose last part (if any) is plain.
pub proof fn lemma_trim_back(b: Seq<char>)
    ensures
        trim_back(b).len() <= b.len(),
        trim_back(b) == b.take(trim_back(b).len() as int),
        plain_parts(split_on(trim_back(b), '/')) == plain_parts(split_on(b, '/')),
        trim_back(b).len() > 0 ==> ({
            let t = trim_back(b);
            let seg = t.skip(last_index_of(t, '/') + 1);
            seg.len() > 0 && seg != dot()
        }),
    decreases b.len(),
{
    if b.len() == 0 {
        assert(b.take(0) =~= b);
    } else {
        lemma_last_index_of(b, '/');
        let k = last_index_of(b, '/');
        let seg = b.skip(k + 1);
        lemma_last_seg_split(b);
        if seg.len() == 0 || seg == dot() {
            let c = b.take(if k < 0 { 0 } else { k });
            lemma_trim_back(c);
            assert(c.take(trim_back(c).len() as int) =~= b.take(trim_back(c).len() as int));
        } else {
            assert(b.take(b.len() as int) =~= b);
        }
    }
}

/// A `'/'`-separated text whose file name is some name has the components of its parent
/// and then that name.
pub proof fn lemma_slashed_components_parent(p: Seq<char>)
    requires
        slashed_file_name(p) is Some,
    ensures
        slashed_parent(p) is Some,
        slashed_plain_name(slashed_file_name(p).unwrap()),
        slashed_file_name(p).unwrap() != dot_dot(),
        slashed_components(p) == slashed_components(slashed_parent(p).unwrap()).push(slashed_file_name(p).unwrap()),
{
    let bs = body_start(p);
    let b = p.skip(bs);
    let t = trim_back(b);
    lemma_trim_back(b);
    lemma_last_index_of(t, '/');
    let k = last_index_of(t, '/');
    let n = t.skip(k + 1);
    assert forall|j: int| 0 <= j < n.len() implies n[j] != '/' by {
        assert(n[j] == t[k + 1 + j]);
    }
    let c = t.take(if k < 0 { 0 } else { k });
    lemma_trim_back(c);
    let tc = trim_back(c);
    let q = p.take(bs) + tc;
    lemma_last_seg_split(t);
    // `tc` is a prefix of the body.
    assert(tc =~= b.take(tc.len() as int)) by {
        assert(tc == c.take(tc.len() as int));
        assert(c =~= b.take(c.len() as int));
    }
    assert(q =~= p.take(bs + tc.len()));
    // The parent starts as the path does.
    assert(has_root(q) == has_root(p) && starts_cur_dir(q) == starts_cur_dir(p) && body_start(q) == bs) by {
        if bs == 1 {
            if tc.len() > 0 {
                assert(q[1] == p[1]);
            }
        } else if q.len() > 0 {
            assert(q[0] == p[0]);
            if q.len() > 1 {
                assert(q[1] == p[1]);
            } else if q[0] == '.' {
                // Then `tc` is `"."`, whose last part is `"."`.
                assert(tc =~= dot());
                lemma_last_index_unique(tc, '/', -1);
                assert(tc.skip(0) =~= tc);
            }
        }
    }
    assert(q.skip(bs) =~= tc);
}

/// Pushing a plain name onto a path adds it as the last component, and it
/// is then the file name (unless it is `".."`).
pub proof fn lemma_slashed_components_pushed(q: Seq<char>, n: Seq<char>)
    requires
        slashed_plain_name(n),
    ensures
        slashed_components(slashed_pushed(q, n)) == slashed_components(q).push(n),
        n != dot_dot() ==> slashed_file_name(slashed_pushed(q, n)) == Some(n),
{
    let x = slashed_pushed(q, n);
    assert(lacks_char(n, '/'));
    assert(n[0] != '/');
    if q.len() == 0 {
        assert(x =~= n);
        assert(!starts_cur_dir(n)) by {
            if n.len() == 1 && n[0] == '.' {
                assert(n =~= dot());
            }
        }
        assert(n.skip(0) =~= n);
        assert(q.skip(0) =~= q);
        lemma_split_on_single(n, '/');
        assert(seq![n].drop_last() =~= Seq::<Seq<char>>::empty());
        assert(seq![Seq::<char>::empty()].drop_last() =~= Seq::<Seq<char>>::empty());
        assert(split_on(q, '/') =~= seq![Seq::<char>::empty()]);
        lemma_plain_parts_push(Seq::<Seq<char>>::empty(), n);
        lemma_plain_parts_push(Seq::<Seq<char>>::empty(), Seq::<char>::empty());
        assert(Seq::<Seq<char>>::empty().push(n) =~= seq![n]);
        assert(Seq::<Seq<char>>::empty().push(Seq::<char>::empty()) =~= seq![Seq::<char>::empty()]);
        assert(slashed_components(x) =~= slashed_components(q).push(n));
    } else {
        let bs = body_start(q);
        if q.last() != '/' {
            assert(x =~= q + seq!['/'] + n);
            assert(has_root(x) == has_root(q) && starts_cur_dir(x) == starts_cur_dir(q)) by {
                assert(x[0] == q[0]);
                if q.len() > 1 {
                    assert(x[1] == q[1]);
                } else {
                    assert(x[1] == '/');
                }
            }
            assert(x.skip(bs) =~= q.skip(bs) + seq!['/'] + n);
            lemma_split_on_append(q.skip(bs), '/', n);
            lemma_plain_parts_push(split_on(q.skip(bs), '/'), n);
            assert(body_start(x) == bs);
            assert(slashed_components(x) =~= slashed_components(q).push(n));
        } else {
            assert(x =~= q + n);
            assert(has_root(x) == has_root(q) && starts_cur_dir(x) == starts_cur_dir(q)) by {
                assert(x[0] == q[0]);
                if q.len() > 1 {
                    assert(x[1] == q[1]);
                }
            }
            let qb = q.skip(bs);
            assert(x.skip(bs) =~= qb + n);
            if qb.len() == 0 {
                lemma_split_on_single(n, '/');
                assert(qb + n =~= n);
                assert(split_on(qb, '/') =~= seq![Seq::<char>::empty()]);
                assert(seq![n].drop_last() =~= Seq::<Seq<char>>::empty());
                assert(seq![Seq::<char>::empty()].drop_last() =~= Seq::<Seq<char>>::empty());
                lemma_plain_parts_push(Seq::<Seq<char>>::empty(), n);
                lemma_plain_parts_push(Seq::<Seq<char>>::empty(), Seq::<char>::empty());
                assert(Seq::<Seq<char>>::empty().push(n) =~= seq![n]);
                assert(Seq::<Seq<char>>::empty().push(Seq::<char>::empty()) =~= seq![Seq::<char>::empty()]);
                assert(body_start(x) == bs);
                assert(slashed_components(x) =~= slashed_components(q).push(n));
            } else {
                let y = qb.drop_last();
                assert(qb.last() == '/');
                assert(qb =~= y + seq!['/'] + Seq::<char>::empty());
                assert(qb + n =~= y + seq!['/'] + n);
                lemma_split_on_append(y, '/', Seq::<char>::empty());
                lemma_split_on_append(y, '/', n);
                lemma_plain_parts_push(split_on(y, '/'), n);
                lemma_plain_parts_push(split_on(y, '/'), Seq::<char>::empty());
                assert(body_start(x) == bs);
                assert(slashed_components(x) =~= slashed_components(q).push(n));
            }
        }
    }
    if n != dot_dot() {
        // The text after the last '/' of the slashed_pushed path is `n`.
        let k = last_index_of(x, '/');
        if q.len() == 0 {
            lemma_last_index_unique(x, '/', -1);
            assert(x.skip(0) =~= n);
        } else if q.last() != '/' {
            assert forall|j: int| q.len() < j < x.len() implies x[j] != '/' by {
                assert(x[j] == n[j - q.len() - 1]);
            }
            lemma_last_index_unique(x, '/', q.len() as int);
            assert(x.skip(q.len() as int + 1) =~= n);
        } else {
            assert forall|j: int| q.len() - 1 < j < x.len() implies x[j] != '/' by {
                assert(x[j] == n[j - q.len()]);
            }
            lemma_last_index_unique(x, '/', q.len() - 1);
            assert(x.skip(q.len() as int) =~= n);
        }
        lemma_plain_last_segment(x);
    }
}

/// A separator of path components: `'/'` or `'\\'`.
pub open spec fn is_sep(c: char) -> bool {
    c == '/' || c == '\\'
}

/// A letter that can name a drive.
pub open spec fn drive_letter(c: char) -> bool {
    ('a' <= c && c <= 'z') || ('A' <= c && c <= 'Z')
}

/// The length of the path's drive prefix (such as `"C:"`): 2, or 0 when it
/// has none.
pub open spec fn drive_len(p: Seq<char>) -> int {
    if p.len() >= 2 && p[1] == ':' && drive_letter(p[0]) {
        2
    } else {
        0
    }
}

/// The path has no prefix but perhaps a drive: it does not start with two
/// separators, as UNC, device and verbatim paths do.
pub open spec fn simple_prefix(p: Seq<char>) -> bool {
    !(p.len() >= 2 && is_sep(p[0]) && is_sep(p[1]))
}

/// What follows the drive prefix, with every separator written as `'/'`.
pub open spec fn rest_of(p: Seq<char>) -> Seq<char> {
    slashed(p.skip(drive_len(p)))
}

/// The file name of a path.
pub open spec fn file_name_of(p: Seq<char>) -> Option<Seq<char>> {
    slashed_file_name(rest_of(p))
}

/// The parent of a path: the drive prefix and the text that the parent of
/// the rest covers.
pub open spec fn parent_of(p: Seq<char>) -> Option<Seq<char>> {
    match slashed_parent(rest_of(p)) {
        Some(q) => Some(p.take(drive_len(p) + q.len())),
        None => None,
    }
}

/// The components of a path: the drive prefix, if any, then those of the
/// rest.
pub open spec fn components(p: Seq<char>) -> Seq<Seq<char>> {
    (if drive_len(p) == 2 {
        seq![p.take(2)]
    } else {
        Seq::empty()
    }) + slashed_components(rest_of(p))
}

/// Two paths have the same components, so that `==` on `Path` holds of them
/// (which also takes a drive letter in either case as the same drive).
pub open spec fn same_path(a: Seq<char>, b: Seq<char>) -> bool {
    components(a) == components(b)
}

/// A plain name: not empty, without separators, and not `"."`.
pub open spec fn plain_name(n: Seq<char>) -> bool {
    n.len() > 0 && n != dot() && forall|j: int| 0 <= j < n.len() ==> !is_sep(n[j])
}

/// `name` pushed onto `base` (what `PathBuf::push` makes of a base with a
/// simple prefix): `name` itself when it has a drive prefix; the drive of
/// `base` and `name` when `name` starts with a separator; else `base` and
/// `name`, with a `'\\'` between them unless `base` is empty, ends with a
/// separator, or is a drive alone.
pub open spec fn pushed(base: Seq<char>, name: Seq<char>) -> Seq<char> {
    if drive_len(name) == 2 {
        name
    } else if name.len() > 0 && is_sep(name[0]) {
        base.take(drive_len(base)) + name
    } else if base.len() > 0 && !is_sep(base.last()) && base.len() != drive_len(base) {
        base + seq!['\\'] + name
    } else {
        base + name
    }
}

/// The path with its file name replaced by `name` (added, when it has none).
pub open spec fn with_file_name(p: Seq<char>, name: Seq<char>) -> Seq<char> {
    match file_name_of(p) {
        Some(_) => pushed(parent_of(p).unwrap(), name),
        None => pushed(p, name),
    }
}

/// The path with its extension replaced by `ext` (removed, when `ext` is
/// empty); unchanged when it has no file name. What ends the path after the
/// file stem is dropped.
pub open spec fn with_extension(p: Seq<char>, ext: Seq<char>) -> Seq<char> {
    match file_stem_of(p) {
        None => p,
        Some(stem) => {
            let u = rest_of(p);
            let base = p.take(drive_len(p) + body_start(u) + name_offset(u)) + stem;
            if ext.len() > 0 {
                base + seq!['.'] + ext
            } else {
                base
            }
        },
    }
}

/// The parent of a `'/'`-separated text is a prefix of it.
pub proof fn lemma_slashed_parent_prefix(u: Seq<char>)
    ensures
        slashed_parent(u) matches Some(q) ==> q.len() <= u.len() && q == u.take(q.len() as int),
{
    if trimmed_body(u).len() > 0 {
        let bs = body_start(u);
        let b = u.skip(bs);
        let t = trim_back(b);
        lemma_trim_back(b);
        lemma_last_index_of(t, '/');
        let k = name_offset(u) - 1;
        let c = t.take(if k < 0 { 0 } else { k });
        lemma_trim_back(c);
        let tc = trim_back(c);
        assert(tc =~= b.take(tc.len() as int)) by {
            assert(tc == c.take(tc.len() as int));
            assert(c =~= b.take(c.len() as int));
        }
        assert(u.take(bs) + tc =~= u.take(bs + tc.len()));
    } else if starts_cur_dir(u) {
        assert(Seq::<char>::empty() =~= u.take(0));
    }
}

/// The drive prefix of a path's initial part, at least as long as that
/// prefix, is the path's.
proof fn lemma_drive_of_prefix(p: Seq<char>, k: int)
    requires
        drive_len(p) <= k <= p.len(),
    ensures
        drive_len(p.take(k)) == drive_len(p),
        drive_len(p) == 2 ==> p.take(k).take(2) == p.take(2),
        simple_prefix(p) ==> simple_prefix(p.take(k)),
{
    if k >= 2 {
        assert(p.take(k)[0] == p[0] && p.take(k)[1] == p[1]);
        assert(p.take(k).take(2) =~= p.take(2));
    }
}

/// A path whose file name is some name has the components of its parent
/// and then that name, a plain name.
pub proof fn lemma_components_parent(p: Seq<char>)
    requires
        file_name_of(p) is Some,
    ensures
        parent_of(p) is Some,
        plain_name(file_name_of(p).unwrap()),
        file_name_of(p).unwrap() != dot_dot(),
        components(p) == components(parent_of(p).unwrap()).push(file_name_of(p).unwrap()),
        simple_prefix(p) ==> simple_prefix(parent_of(p).unwrap()),
{
    let d = drive_len(p);
    let u = rest_of(p);
    lemma_slashed_components_parent(u);
    lemma_slashed_parent_prefix(u);
    let q = slashed_parent(u).unwrap();
    let n = slashed_file_name(u).unwrap();
    // The name is text of `u`, which holds no backslash.
    let bs = body_start(u);
    let b = u.skip(bs);
    lemma_trim_back(b);
    let t = trim_back(b);
    lemma_last_index_of(t, '/');
    assert forall|j: int| 0 <= j < n.len() implies !is_sep(n[j]) by {
        let o = name_offset(u);
        assert(n[j] == t[o + j]);
        assert(t[o + j] == b[o + j]);
        assert(b[o + j] == u[bs + o + j]);
        assert(u[bs + o + j] == p.skip(d)[bs + o + j]);
    }
    let pp = p.take(d + q.len());
    assert(u.len() == p.len() - d);
    lemma_drive_of_prefix(p, d + q.len());
    assert(rest_of(pp) =~= q) by {
        assert(pp.skip(d) =~= p.skip(d).take(q.len() as int));
        assert(slashed(p.skip(d).take(q.len() as int)) =~= u.take(q.len() as int));
    }
    let marker = if d == 2 { seq![p.take(2)] } else { Seq::<Seq<char>>::empty() };
    assert(components(pp) == marker + slashed_components(q));
    assert(components(p) =~= (marker + slashed_components(q)).push(n));
}

/// Pushing a plain name without a drive onto a path adds it as the last
/// component, and it is then the file name (unless it is `".."`); a simple
/// prefix stays simple.
pub proof fn lemma_components_pushed(q: Seq<char>, n: Seq<char>)
    requires
        plain_name(n),
        drive_len(n) == 0,
    ensures
        components(pushed(q, n)) == components(q).push(n),
        n != dot_dot() ==> file_name_of(pushed(q, n)) == Some(n),
        simple_prefix(q) ==> simple_prefix(pushed(q, n)),
{
    let x = pushed(q, n);
    let d = drive_len(q);
    assert(!is_sep(n[0]));
    assert(slashed(n) =~= n);
    assert(slashed_plain_name(n));
    let rq = rest_of(q);
    if q.len() > 0 && !is_sep(q.last()) && q.len() != d {
        assert(x == q + seq!['\\'] + n);
        if q.len() >= 2 {
            assert(x[0] == q[0] && x[1] == q[1]);
        } else {
            assert(x[1] == '\\');
        }
        assert(drive_len(x) == d);
        assert(x.skip(d) =~= q.skip(d) + seq!['\\'] + n);
        assert(rest_of(x) =~= rq + seq!['/'] + n);
        assert(rq.last() == q.last());
        assert(rest_of(x) == slashed_pushed(rq, n));
    } else if q.len() == 0 {
        assert(x =~= n);
        assert(rq =~= Seq::<char>::empty());
        assert(n.skip(0) =~= n);
        assert(rest_of(x) == slashed_pushed(rq, n));
    } else if q.len() == d {
        assert(x == q + n);
        assert(x[0] == q[0] && x[1] == q[1]);
        assert(drive_len(x) == 2);
        assert(x.skip(2) =~= n);
        assert(rq =~= Seq::<char>::empty());
        assert(rest_of(x) == slashed_pushed(rq, n));
    } else {
        assert(x == q + n);
        assert(is_sep(q.last()));
        if q.len() >= 2 {
            assert(x[0] == q[0] && x[1] == q[1]);
        } else {
            assert(x[0] == q[0]);
        }
        assert(drive_len(x) == d);
        assert(x.skip(d) =~= q.skip(d) + n);
        assert(rest_of(x) =~= rq + n);
        assert(rq.last() == '/');
        assert(rest_of(x) == slashed_pushed(rq, n));
    }
    lemma_slashed_components_pushed(rq, n);
    let marker = if d == 2 { seq![q.take(2)] } else { Seq::<Seq<char>>::empty() };
    if d == 2 {
        assert(x.take(2) =~= q.take(2));
    }
    assert(components(x) =~= (marker + slashed_components(rq)).push(n));
}

/// The drive prefix of a path and what follows it.
fn rest_chars(p: &Vec<char>) -> (r: (usize, Vec<char>))
    ensures
        r.0 == drive_len(p@),
        r.1@ == rest_of(p@),
        r.0 + r.1.len() == p.len(),
{
    let d: usize = if p.len() >= 2 && p[1] == ':' && (('a' <= p[0] && p[0] <= 'z') || ('A' <= p[0] && p[0] <= 'Z')) {
        2
    } else {
        0
    };
    let mut u: Vec<char> = Vec::new();
    let mut i: usize = d;
    while i < p.len()
        invariant
            d <= i <= p.len(),
            d == drive_len(p@),
            u@ == slashed(p@.subrange(d as int, i as int)),
        decreases p.len() - i,
    {
        let c = if p[i] == '\\' { '/' } else { p[i] };
        u.push(c);
        i += 1;
        assert(u@ =~= slashed(p@.subrange(d as int, i as int)));
    }
    assert(p@.subrange(d as int, i as int) =~= p@.skip(d as int));
    (d, u)
}

/// The file name of a path.
pub fn file_name_chars(p: &Vec<char>) -> (r: Option<Vec<char>>)
    ensures
        match r {
            Some(n) => file_name_of(p@) == Some(n@),
            None => file_name_of(p@) is None,
        },
{
    let (_, u) = rest_chars(p);
    slashed_file_name_chars(&u)
}

/// The parent of a path.
pub fn parent_chars(p: &Vec<char>) -> (r: Option<Vec<char>>)
    ensures
        match r {
            Some(q) => parent_of(p@) == Some(q@),
            None => parent_of(p@) is None,
        },
{
    let (d, u) = rest_chars(p);
    proof {
        lemma_slashed_parent_prefix(u@);
    }
    match slashed_parent_chars(&u) {
        Some(q) => Some(slice_chars(p, 0, d + q.len())),
        None => None,
    }
}

/// `name` pushed onto `base` (see `pushed`).
pub fn pushed_chars(base: &Vec<char>, name: &Vec<char>) -> (r: Vec<char>)
    ensures
        r@ == pushed(base@, name@),
{
    let (nd, _) = rest_chars(name);
    let (bd, _) = rest_chars(base);
    if nd == 2 {
        copy_chars(name)
    } else if name.len() > 0 && (name[0] == '/' || name[0] == '\\') {
        let mut r = slice_chars(base, 0, bd);
        push_all(&mut r, name);
        assert(r@ =~= pushed(base@, name@));
        r
    } else {
        let mut r = copy_chars(base);
        if base.len() > 0 && !(base[base.len() - 1] == '/' || base[base.len() - 1] == '\\') && base.len() != bd {
            r.push('\\');
        }
        push_all(&mut r, name);
        assert(r@ =~= pushed(base@, name@));
        r
    }
}

/// The path with its file name replaced by `name`.
pub fn with_file_name_chars(p: &Vec<char>, name: &Vec<char>) -> (r: Vec<char>)
    ensures
        r@ == with_file_name(p@, name@),
{
    match file_name_chars(p) {
        Some(_) => {
            proof {
                lemma_components_parent(p@);
            }
            match parent_chars(p) {
                Some(q) => pushed_chars(&q, name),
                None => {
                    assert(false);
                    pushed_chars(p, name)
                },
            }
        },
        None => pushed_chars(p, name),
    }
}

/// The path with its extension replaced by `ext`.
pub fn with_extension_chars(p: &Vec<char>, ext: &Vec<char>) -> (r: Vec<char>)
    ensures
        r@ == with_extension(p@, ext@),
{
    match file_name_chars(p) {
        None => copy_chars(p),
        Some(n) => {
            let (stem, _) = stem_and_extension(&n);
            let (d, u) = rest_chars(p);
            let start = body_start_exec(&u);
            let e = trimmed_end(&u, start);
            let t = slice_chars(&u, start, e);
            proof {
                lemma_last_index_of(t@, '/');
            }
            let tlen = t.len();
            let from = match last_index(&t, '/') {
                Some(k) => {
                    assert(k < tlen);
                    k + 1
                },
                None => 0,
            };
            let mut r = slice_chars(p, 0, d + start + from);
            push_all(&mut r, &stem);
            if ext.len() > 0 {
                r.push('.');
                push_all(&mut r, ext);
            }
            r
        },
    }
}

/// Whether a path has no prefix but perhaps a drive (see `simple_prefix`).
pub fn has_simple_prefix(p: &str) -> (r: bool)
    ensures
        r == simple_prefix(p@),
{
    let chars = crate::text::chars_of(p);
    !(chars.len() >= 2 && (chars[0] == '/' || chars[0] == '\\') && (chars[1] == '/' || chars[1] == '\\'))
}

/// Whether a path has no prefix but perhaps a drive, and has a file name.
pub fn path_has_file_name(p: &str) -> (r: bool)
    ensures
        r == (simple_prefix(p@) && file_name_of(p@) is Some),
{
    has_simple_prefix(p) && file_name_chars(&crate::text::chars_of(p)).is_some()
}

} // verus!
