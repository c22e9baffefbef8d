//! Character-level text operations, each stated over `Seq<char>`.
//!
//! Every executable function here works on `Vec<char>` and is proved equal
//! to a spec function that says, in the plainest recursive form, what the
//! corresponding operation on Rust strings does (`str::replace`,
//! `str::contains`, `str::split`, `str::lines`, `str::trim`, `join`).

use vstd::prelude::*;

verus! {

/// The characters of `s`, in order.
pub fn chars_of(s: &str) -> (v: Vec<char>)
    ensures
        v@ == s@,
{
    let mut v: Vec<char> = Vec::new();
    for c in it: s.chars()
        invariant
            v@ == it.seq().take(it.index() as int),
    {
        v.push(c);
    }
    v
}

/// `String::push`: appends one character.
#[verifier::external_body]
fn string_push(s: &mut String, c: char)
    ensures
        final(s)@ == old(s)@.push(c),
{
    s.push(c);
}

/// The string made of the characters of `v`, in order.
pub fn string_of(v: &Vec<char>) -> (s: String)
    ensures
        s@ == v@,
{
    let mut s = String::new();
    let mut i: usize = 0;
    while i < v.len()
        invariant
            i <= v.len(),
            s@ == v@.take(i as int),
        decreases v.len() - i,
    {
        string_push(&mut s, v[i]);
        i += 1;
        assert(s@ =~= v@.take(i as int));
    }
    assert(v@.take(i as int) =~= v@);
    s
}

/// Appends all of `x` to `r`.
pub fn push_all(r: &mut Vec<char>, x: &Vec<char>)
    ensures
        final(r)@ == old(r)@ + x@,
{
    let mut i: usize = 0;
    while i < x.len()
        invariant
            i <= x.len(),
            r@ == old(r)@ + x@.take(i as int),
        decreases x.len() - i,
    {
        r.push(x[i]);
        i += 1;
        assert(r@ =~= old(r)@ + x@.take(i as int));
    }
    assert(x@.take(i as int) =~= x@);
}

/// `pat` occurs in `s` starting at index `i`.
pub open spec fn occurs_at(s: Seq<char>, pat: Seq<char>, i: int) -> bool {
    &&& 0 <= i
    &&& i + pat.len() <= s.len()
    &&& s.subrange(i, i + pat.len()) == pat
}

/// `pat` occurs somewhere in `s` (what `str::contains` answers).
pub open spec fn contains_text(s: Seq<char>, pat: Seq<char>) -> bool {
    exists|i: int| occurs_at(s, pat, i)
}

/// What `str::replace(s, pat, rep)` returns for a non-empty `pat`: the
/// occurrences of `pat` are found from left to right, without overlap, and
/// each is replaced by `rep`.
pub open spec fn replaced(s: Seq<char>, pat: Seq<char>, rep: Seq<char>) -> Seq<char>
    decreases s.len(),
{
    if s.len() == 0 {
        Seq::empty()
    } else if pat.len() > 0 && occurs_at(s, pat, 0) {
        rep + replaced(s.skip(pat.len() as int), pat, rep)
    } else {
        seq![s[0]] + replaced(s.skip(1), pat, rep)
    }
}

/// Whether `pat` occurs in `s` at index `i`.
pub fn occurs_at_exec(s: &Vec<char>, pat: &Vec<char>, i: usize) -> (b: bool)
    ensures
        b == occurs_at(s@, pat@, i as int),
{
    if i > s.len() || pat.len() > s.len() - i {
        return false;
    }
    let mut k: usize = 0;
    while k < pat.len()
        invariant
            k <= pat.len(),
            i + pat.len() <= s.len(),
            forall|j: int| 0 <= j < k ==> s@[i + j] == pat@[j],
        decreases pat.len() - k,
    {
        if s[i + k] != pat[k] {
            assert(s@.subrange(i as int, i + pat.len())[k as int] != pat@[k as int]);
            return false;
        }
        k += 1;
    }
    assert(s@.subrange(i as int, i + pat.len()) =~= pat@);
    true
}

/// Whether `pat` occurs anywhere in `s`.
pub fn contains_exec(s: &Vec<char>, pat: &Vec<char>) -> (b: bool)
    ensures
        b == contains_text(s@, pat@),
{
    if pat.len() > s.len() {
        return false;
    }
    let limit = s.len() - pat.len();
    let mut i: usize = 0;
    while i < limit
        invariant
            pat.len() <= s.len(),
            limit == s.len() - pat.len(),
            i <= limit,
            forall|j: int| 0 <= j < i ==> !occurs_at(s@, pat@, j),
        decreases limit - i,
    {
        if occurs_at_exec(s, pat, i) {
            return true;
        }
        i += 1;
    }
    if occurs_at_exec(s, pat, limit) {
        return true;
    }
    assert forall|j: int| !occurs_at(s@, pat@, j) by {
        if 0 <= j < i {
        }
    }
    false
}

/// `s` with every left-to-right, non-overlapping occurrence of the non-empty
/// `pat` replaced by `rep`.
pub fn replace_all(s: &Vec<char>, pat: &Vec<char>, rep: &Vec<char>) -> (r: Vec<char>)
    requires
        pat@.len() > 0,
    ensures
        r@ == replaced(s@, pat@, rep@),
{
    let mut r: Vec<char> = Vec::new();
    let mut i: usize = 0;
    assert(s@.skip(0) =~= s@);
    while i < s.len()
        invariant
            i <= s.len(),
            pat@.len() > 0,
            replaced(s@, pat@, rep@) == r@ + replaced(s@.skip(i as int), pat@, rep@),
        decreases s.len() - i,
    {
        let ghost t = s@.skip(i as int);
        if occurs_at_exec(s, pat, i) {
            assert(t.subrange(0, pat@.len() as int) =~= s@.subrange(i as int, i + pat@.len()));
            assert(t.skip(pat@.len() as int) =~= s@.skip(i + pat@.len()));
            assert(replaced(t, pat@, rep@) == rep@ + replaced(s@.skip(i + pat@.len()), pat@, rep@));
            push_all(&mut r, rep);
            i += pat.len();
            assert(replaced(s@, pat@, rep@) == r@ + replaced(s@.skip(i as int), pat@, rep@));
        } else {
            assert(!occurs_at(t, pat@, 0)) by {
                if occurs_at(t, pat@, 0) {
                    assert(t.subrange(0, pat@.len() as int) =~= s@.subrange(i as int, i + pat@.len()));
                }
            }
            assert(t.skip(1) =~= s@.skip(i + 1));
            assert(replaced(t, pat@, rep@) == seq![s@[i as int]] + replaced(s@.skip(i + 1), pat@, rep@));
            r.push(s[i]);
            i += 1;
            assert(replaced(s@, pat@, rep@) == r@ + replaced(s@.skip(i as int), pat@, rep@));
        }
    }
    assert(replaced(s@.skip(i as int), pat@, rep@) =~= Seq::<char>::empty());
    assert(r@ + Seq::<char>::empty() =~= r@);
    r
}

/// A copy of `v`.
pub fn copy_chars(v: &Vec<char>) -> (r: Vec<char>)
    ensures
        r@ == v@,
{
    let r = v.clone();
    assert(r@ =~= v@);
    r
}

/// The views of a sequence of character vectors.
pub open spec fn views(v: Seq<Vec<char>>) -> Seq<Seq<char>> {
    v.map_values(|p: Vec<char>| p@)
}

/// What `str::split(c)` yields for a single-character separator: the pieces
/// between the occurrences of `c`; there is always at least one piece.
pub open spec fn split_on(s: Seq<char>, c: char) -> Seq<Seq<char>>
    decreases s.len(),
{
    if s.len() == 0 {
        seq![Seq::<char>::empty()]
    } else {
        let init = split_on(s.drop_last(), c);
        if s.last() == c {
            init.push(Seq::<char>::empty())
        } else {
            init.update(init.len() - 1, init.last().push(s.last()))
        }
    }
}

/// `split_on` always yields at least one piece.
pub proof fn lemma_split_on_nonempty(s: Seq<char>, c: char)
    ensures
        split_on(s, c).len() >= 1,
    decreases s.len(),
{
    if s.len() > 0 {
        lemma_split_on_nonempty(s.drop_last(), c);
    }
}

/// The pieces of `s` between the occurrences of `c`.
pub fn split_chars(s: &Vec<char>, c: char) -> (pieces: Vec<Vec<char>>)
    ensures
        views(pieces@) == split_on(s@, c),
{
    let mut pieces: Vec<Vec<char>> = Vec::new();
    let mut cur: Vec<char> = Vec::new();
    let mut i: usize = 0;
    assert(s@.take(0) =~= Seq::<char>::empty());
    assert(views(pieces@).push(cur@) =~= split_on(s@.take(0), c));
    while i < s.len()
        invariant
            i <= s.len(),
            views(pieces@).push(cur@) == split_on(s@.take(i as int), c),
        decreases s.len() - i,
    {
        let ghost before = s@.take(i as int);
        assert(s@.take(i + 1).drop_last() =~= before);
        proof {
            lemma_split_on_nonempty(before, c);
        }
        if s[i] == c {
            let done = cur;
            pieces.push(done);
            cur = Vec::new();
            assert(views(pieces@).push(cur@) =~= split_on(before, c).push(Seq::<char>::empty()));
        } else {
            cur.push(s[i]);
            assert(views(pieces@).push(cur@) =~= split_on(before, c).update(
                split_on(before, c).len() - 1,
                split_on(before, c).last().push(s@[i as int]),
            ));
        }
        i += 1;
    }
    assert(s@.take(i as int) =~= s@);
    pieces.push(cur);
    assert(views(pieces@) =~= split_on(s@, c));
    pieces
}

/// The parts joined with `sep` between consecutive parts (what `join` on a
/// slice of strings returns).
pub open spec fn joined(parts: Seq<Seq<char>>, sep: Seq<char>) -> Seq<char>
    decreases parts.len(),
{
    if parts.len() == 0 {
        Seq::empty()
    } else if parts.len() == 1 {
        parts[0]
    } else {
        joined(parts.drop_last(), sep) + sep + parts.last()
    }
}

/// The parts joined with `sep` between consecutive parts.
pub fn join_chars(parts: &Vec<Vec<char>>, sep: &Vec<char>) -> (r: Vec<char>)
    ensures
        r@ == joined(views(parts@), sep@),
{
    let mut r: Vec<char> = Vec::new();
    let mut i: usize = 0;
    while i < parts.len()
        invariant
            i <= parts.len(),
            r@ == joined(views(parts@).take(i as int), sep@),
        decreases parts.len() - i,
    {
        let ghost done = views(parts@).take(i as int);
        assert(views(parts@).take(i + 1).drop_last() =~= done);
        assert(views(parts@).take(i + 1).last() == parts@[i as int]@);
        if i > 0 {
            push_all(&mut r, sep);
        }
        push_all(&mut r, &parts[i]);
        i += 1;
        if i == 1 {
            assert(views(parts@).take(1) =~= seq![parts@[0]@]);
        }
    }
    assert(views(parts@).take(i as int) =~= views(parts@));
    r
}

/// One line of `str::lines` loses the `'\r'` of a `"\r\n"` ending.
pub open spec fn strip_cr(p: Seq<char>) -> Seq<char> {
    if p.len() > 0 && p.last() == '\r' {
        p.drop_last()
    } else {
        p
    }
}

/// What `str::lines` yields: the text split at `'\n'`, a `'\r'` before a
/// `'\n'` dropped, and no final empty line after a last `'\n'`.
pub open spec fn lines_of(s: Seq<char>) -> Seq<Seq<char>> {
    let pieces = split_on(s, '\n');
    if s.len() == 0 {
        Seq::empty()
    } else if s.last() == '\n' {
        pieces.drop_last().map_values(|p: Seq<char>| strip_cr(p))
    } else {
        pieces.drop_last().map_values(|p: Seq<char>| strip_cr(p)).push(pieces.last())
    }
}

/// The lines of `s`, as `str::lines` yields them.
pub fn lines_chars(s: &Vec<char>) -> (lines: Vec<Vec<char>>)
    ensures
        views(lines@) == lines_of(s@),
{
    let mut result: Vec<Vec<char>> = Vec::new();
    if s.len() == 0 {
        assert(views(result@) =~= lines_of(s@));
        return result;
    }
    let pieces = split_chars(s, '\n');
    proof {
        lemma_split_on_nonempty(s@, '\n');
    }
    let n = pieces.len();
    let ghost terminated = views(pieces@).drop_last().map_values(|p: Seq<char>| strip_cr(p));
    let mut k: usize = 0;
    while k + 1 < n
        invariant
            n == pieces.len(),
            n >= 1,
            k + 1 <= n,
            views(pieces@) == split_on(s@, '\n'),
            terminated == views(pieces@).drop_last().map_values(|p: Seq<char>| strip_cr(p)),
            views(result@) == terminated.take(k as int),
        decreases n - k,
    {
        let p = &pieces[k];
        let mut line = copy_chars(p);
        if line.len() > 0 && line[line.len() - 1] == '\r' {
            line.pop();
            assert(line@ =~= p@.drop_last());
        }
        assert(line@ == strip_cr(p@));
        assert(views(pieces@).drop_last()[k as int] == p@);
        assert(terminated[k as int] == line@);
        let ghost prev = views(result@);
        result.push(line);
        assert(views(result@) =~= prev.push(line@));
        k += 1;
        assert(views(result@) =~= terminated.take(k as int));
    }
    assert(terminated.take(k as int) =~= terminated);
    if s[s.len() - 1] != '\n' {
        let last = copy_chars(&pieces[n - 1]);
        result.push(last);
        assert(views(result@) =~= terminated.push(views(pieces@).last()));
    }
    result
}

/// A character with the Unicode `White_Space` property (what
/// `char::is_whitespace` answers).
pub open spec fn is_white_space(c: char) -> bool {
    ||| ('\u{9}' <= c && c <= '\u{d}')
    ||| c == ' '
    ||| c == '\u{85}'
    ||| c == '\u{a0}'
    ||| c == '\u{1680}'
    ||| ('\u{2000}' <= c && c <= '\u{200a}')
    ||| c == '\u{2028}'
    ||| c == '\u{2029}'
    ||| c == '\u{202f}'
    ||| c == '\u{205f}'
    ||| c == '\u{3000}'
}

/// Whether `c` has the Unicode `White_Space` property.
pub fn is_white_space_exec(c: char) -> (b: bool)
    ensures
        b == is_white_space(c),
{
    ('\u{9}' <= c && c <= '\u{d}') || c == ' ' || c == '\u{85}' || c == '\u{a0}' || c
        == '\u{1680}' || ('\u{2000}' <= c && c <= '\u{200a}') || c == '\u{2028}' || c
        == '\u{2029}' || c == '\u{202f}' || c == '\u{205f}' || c == '\u{3000}'
}

/// `s` without its leading white space.
pub open spec fn trim_start(s: Seq<char>) -> Seq<char>
    decreases s.len(),
{
    if s.len() > 0 && is_white_space(s[0]) {
        trim_start(s.drop_first())
    } else {
        s
    }
}

/// `s` without its trailing white space.
pub open spec fn trim_end(s: Seq<char>) -> Seq<char>
    decreases s.len(),
{
    if s.len() > 0 && is_white_space(s.last()) {
        trim_end(s.drop_last())
    } else {
        s
    }
}

/// What `str::trim` returns: `s` without leading and trailing white space.
pub open spec fn trimmed(s: Seq<char>) -> Seq<char> {
    trim_end(trim_start(s))
}

proof fn lemma_trim_start_skip(s: Seq<char>, a: int)
    requires
        0 <= a <= s.len(),
        forall|j: int| 0 <= j < a ==> is_white_space(s[j]),
        a == s.len() || !is_white_space(s[a]),
    ensures
        trim_start(s) == s.skip(a),
    decreases a,
{
    if a == 0 {
        assert(s.skip(0) =~= s);
    } else {
        let t = s.drop_first();
        assert forall|j: int| 0 <= j < a - 1 implies is_white_space(t[j]) by {
            assert(t[j] == s[j + 1]);
        }
        lemma_trim_start_skip(t, a - 1);
        assert(t.skip(a - 1) =~= s.skip(a));
    }
}

proof fn lemma_trim_end_take(s: Seq<char>, b: int)
    requires
        0 <= b <= s.len(),
        forall|j: int| b <= j < s.len() ==> is_white_space(s[j]),
        b == 0 || !is_white_space(s[b - 1]),
    ensures
        trim_end(s) == s.take(b),
    decreases s.len() - b,
{
    if b == s.len() {
        assert(s.take(b) =~= s);
    } else {
        let t = s.drop_last();
        lemma_trim_end_take(t, b);
        assert(t.take(b) =~= s.take(b));
    }
}

/// `s` without leading and trailing white space.
pub fn trim_chars(s: &Vec<char>) -> (r: Vec<char>)
    ensures
        r@ == trimmed(s@),
{
    let mut a: usize = 0;
    while a < s.len() && is_white_space_exec(s[a])
        invariant
            a <= s.len(),
            forall|j: int| 0 <= j < a ==> is_white_space(s@[j]),
        decreases s.len() - a,
    {
        a += 1;
    }
    proof {
        lemma_trim_start_skip(s@, a as int);
    }
    let mut b: usize = s.len();
    while b > a && is_white_space_exec(s[b - 1])
        invariant
            a <= b <= s.len(),
            forall|j: int| b <= j < s.len() ==> is_white_space(s@[j]),
        decreases b,
    {
        b -= 1;
    }
    let ghost t = s@.skip(a as int);
    proof {
        assert forall|j: int| b - a <= j < t.len() implies is_white_space(t[j]) by {
            assert(t[j] == s@[a + j]);
        }
        if b > a {
            assert(t[b - a - 1] == s@[b - 1]);
        }
        lemma_trim_end_take(t, b - a);
    }
    let mut r: Vec<char> = Vec::new();
    let mut i: usize = a;
    while i < b
        invariant
            a <= i <= b <= s.len(),
            r@ == s@.subrange(a as int, i as int),
        decreases b - i,
    {
        r.push(s[i]);
        i += 1;
        assert(r@ =~= s@.subrange(a as int, i as int));
    }
    assert(t.take(b - a) =~= s@.subrange(a as int, b as int));
    r
}

/// `a` comes strictly before `b` in lexicographic order of code points (the
/// order of Rust's `Ord` on strings: UTF-8 bytes compare as code points do).
pub open spec fn lex_lt(a: Seq<char>, b: Seq<char>) -> bool
    decreases a.len(),
{
    if a.len() == 0 {
        b.len() > 0
    } else if b.len() == 0 {
        false
    } else if a[0] != b[0] {
        a[0] < b[0]
    } else {
        lex_lt(a.drop_first(), b.drop_first())
    }
}

/// No text comes before itself.
pub proof fn lemma_lex_irreflexive(a: Seq<char>)
    ensures
        !lex_lt(a, a),
    decreases a.len(),
{
    if a.len() > 0 {
        lemma_lex_irreflexive(a.drop_first());
    }
}

/// Two texts are never each before the other.
pub proof fn lemma_lex_asymmetric(a: Seq<char>, b: Seq<char>)
    ensures
        !(lex_lt(a, b) && lex_lt(b, a)),
    decreases a.len(),
{
    if a.len() > 0 && b.len() > 0 && a[0] == b[0] {
        lemma_lex_asymmetric(a.drop_first(), b.drop_first());
    }
}

/// The order is transitive.
pub proof fn lemma_lex_transitive(a: Seq<char>, b: Seq<char>, c: Seq<char>)
    requires
        lex_lt(a, b),
        lex_lt(b, c),
    ensures
        lex_lt(a, c),
    decreases a.len(),
{
    if a.len() > 0 && b.len() > 0 && c.len() > 0 && a[0] == b[0] && b[0] == c[0] {
        lemma_lex_transitive(a.drop_first(), b.drop_first(), c.drop_first());
    }
}

/// Any two different texts are ordered one way or the other.
pub proof fn lemma_lex_total(a: Seq<char>, b: Seq<char>)
    requires
        a != b,
    ensures
        lex_lt(a, b) || lex_lt(b, a),
    decreases a.len(),
{
    if a.len() == 0 {
        assert(b.len() > 0) by {
            if b.len() == 0 {
                assert(a =~= b);
            }
        }
    } else if b.len() == 0 {
    } else if a[0] == b[0] {
        if a.drop_first() == b.drop_first() {
            assert(a =~= seq![a[0]] + a.drop_first());
            assert(b =~= seq![b[0]] + b.drop_first());
        }
        lemma_lex_total(a.drop_first(), b.drop_first());
    }
}

proof fn lemma_lex_skip(a: Seq<char>, b: Seq<char>, i: int)
    requires
        0 <= i <= a.len(),
        i <= b.len(),
        forall|j: int| 0 <= j < i ==> a[j] == b[j],
    ensures
        lex_lt(a, b) == lex_lt(a.skip(i), b.skip(i)),
    decreases i,
{
    if i == 0 {
        assert(a.skip(0) =~= a);
        assert(b.skip(0) =~= b);
    } else {
        let a1 = a.drop_first();
        let b1 = b.drop_first();
        assert forall|j: int| 0 <= j < i - 1 implies a1[j] == b1[j] by {
            assert(a1[j] == a[j + 1]);
            assert(b1[j] == b[j + 1]);
        }
        lemma_lex_skip(a1, b1, i - 1);
        assert(a1.skip(i - 1) =~= a.skip(i));
        assert(b1.skip(i - 1) =~= b.skip(i));
    }
}

/// Whether `a` comes strictly before `b`.
pub fn lex_less(a: &Vec<char>, b: &Vec<char>) -> (r: bool)
    ensures
        r == lex_lt(a@, b@),
{
    let mut i: usize = 0;
    while i < a.len() && i < b.len() && a[i] == b[i]
        invariant
            i <= a.len(),
            i <= b.len(),
            forall|j: int| 0 <= j < i ==> a@[j] == b@[j],
        decreases a.len() - i,
    {
        i += 1;
    }
    proof {
        lemma_lex_skip(a@, b@, i as int);
    }
    if i == a.len() {
        i < b.len()
    } else if i == b.len() {
        false
    } else {
        assert(a@.skip(i as int)[0] == a@[i as int]);
        assert(b@.skip(i as int)[0] == b@[i as int]);
        a[i] < b[i]
    }
}

/// Whether `a` and `b` hold the same characters.
pub fn same_chars(a: &Vec<char>, b: &Vec<char>) -> (r: bool)
    ensures
        r == (a@ == b@),
{
    if a.len() != b.len() {
        return false;
    }
    let mut i: usize = 0;
    while i < a.len()
        invariant
            i <= a.len(),
            a.len() == b.len(),
            forall|j: int| 0 <= j < i ==> a@[j] == b@[j],
        decreases a.len() - i,
    {
        if a[i] != b[i] {
            return false;
        }
        i += 1;
    }
    assert(a@ =~= b@);
    true
}

/// `c` does not occur in `y`.
pub open spec fn lacks_char(y: Seq<char>, c: char) -> bool {
    forall|i: int| 0 <= i < y.len() ==> y[i] != c
}

/// A text without the separator is a single piece.
pub proof fn lemma_split_on_single(y: Seq<char>, c: char)
    requires
        lacks_char(y, c),
    ensures
        split_on(y, c) == seq![y],
    decreases y.len(),
{
    if y.len() > 0 {
        let y1 = y.drop_last();
        assert(lacks_char(y1, c)) by {
            assert forall|i: int| 0 <= i < y1.len() implies y1[i] != c by {
                assert(y1[i] == y[i]);
            }
        }
        lemma_split_on_single(y1, c);
        assert(y1.push(y.last()) =~= y);
        assert(split_on(y, c) =~= seq![y]);
    } else {
        assert(y =~= Seq::<char>::empty());
    }
}

/// Splitting `x`, a separator, then a piece without the separator, adds
/// that piece after the pieces of `x`.
pub proof fn lemma_split_on_append(x: Seq<char>, c: char, y: Seq<char>)
    requires
        lacks_char(y, c),
    ensures
        split_on(x + seq![c] + y, c) == split_on(x, c).push(y),
    decreases y.len(),
{
    let s = x + seq![c] + y;
    if y.len() == 0 {
        assert(s.drop_last() =~= x);
        assert(y =~= Seq::<char>::empty());
    } else {
        let y1 = y.drop_last();
        assert(lacks_char(y1, c)) by {
            assert forall|i: int| 0 <= i < y1.len() implies y1[i] != c by {
                assert(y1[i] == y[i]);
            }
        }
        lemma_split_on_append(x, c, y1);
        assert(s.drop_last() =~= x + seq![c] + y1);
        assert(s.last() == y.last());
        assert(y1.push(y.last()) =~= y);
        assert(split_on(s, c) =~= split_on(x, c).push(y));
    }
}

/// Splitting at `c` the join of pieces without `c` gives the pieces back.
pub proof fn lemma_split_joined(l: Seq<Seq<char>>, c: char)
    requires
        l.len() >= 1,
        forall|i: int| 0 <= i < l.len() ==> lacks_char(#[trigger] l[i], c),
    ensures
        split_on(joined(l, seq![c]), c) == l,
    decreases l.len(),
{
    if l.len() == 1 {
        lemma_split_on_single(l[0], c);
        assert(l =~= seq![l[0]]);
    } else {
        let init = l.drop_last();
        assert forall|i: int| 0 <= i < init.len() implies lacks_char(#[trigger] init[i], c) by {
            assert(init[i] == l[i]);
        }
        lemma_split_joined(init, c);
        assert(lacks_char(l[l.len() - 1], c));
        lemma_split_on_append(joined(init, seq![c]), c, l.last());
        assert(init.push(l.last()) =~= l);
    }
}

/// A join whose last piece is not empty ends with that piece's last character.
pub proof fn lemma_joined_last(l: Seq<Seq<char>>, sep: Seq<char>)
    requires
        l.len() >= 1,
        l.last().len() > 0,
    ensures
        joined(l, sep).len() > 0,
        joined(l, sep).last() == l.last().last(),
{
}

/// Joining a sequence with one more part adds the separator and the part.
pub proof fn lemma_joined_push(l: Seq<Seq<char>>, sep: Seq<char>, x: Seq<char>)
    requires
        l.len() >= 1,
    ensures
        joined(l.push(x), sep) == joined(l, sep) + sep + x,
{
    assert(l.push(x).drop_last() =~= l);
}

proof fn lemma_joined_extend_last(l: Seq<Seq<char>>, sep: Seq<char>, d: char)
    requires
        l.len() >= 1,
    ensures
        joined(l.update(l.len() - 1, l.last().push(d)), sep) == joined(l, sep).push(d),
{
    let u = l.update(l.len() - 1, l.last().push(d));
    if l.len() == 1 {
    } else {
        assert(u.drop_last() =~= l.drop_last());
        assert(joined(l, sep) + Seq::<char>::empty() =~= joined(l, sep));
        assert(joined(l.drop_last(), sep) + sep + l.last().push(d) =~= (joined(l.drop_last(), sep) + sep
            + l.last()).push(d));
    }
}

/// Joining the pieces of a split with the separator gives the text back.
pub proof fn lemma_joined_split(x: Seq<char>, c: char)
    ensures
        joined(split_on(x, c), seq![c]) == x,
    decreases x.len(),
{
    if x.len() == 0 {
        assert(x =~= Seq::<char>::empty());
    } else {
        let x1 = x.drop_last();
        lemma_joined_split(x1, c);
        lemma_split_on_nonempty(x1, c);
        let s1 = split_on(x1, c);
        if x.last() == c {
            lemma_joined_push(s1, seq![c], Seq::empty());
            assert(x1 + seq![c] + Seq::<char>::empty() =~= x);
        } else {
            lemma_joined_extend_last(s1, seq![c], x.last());
            assert(x1.push(x.last()) =~= x);
        }
    }
}

/// A text holding the separator splits into at least two pieces.
pub proof fn lemma_split_on_two(x: Seq<char>, c: char, i: int)
    requires
        0 <= i < x.len(),
        x[i] == c,
    ensures
        split_on(x, c).len() >= 2,
    decreases x.len(),
{
    let x1 = x.drop_last();
    lemma_split_on_nonempty(x1, c);
    if x.last() != c {
        assert(i < x.len() - 1);
        assert(x1[i] == c);
        lemma_split_on_two(x1, c, i);
    }
}

/// `pat` occurs nowhere in `s`.
pub open spec fn lacks_text(s: Seq<char>, pat: Seq<char>) -> bool {
    forall|i: int| !occurs_at(s, pat, i)
}

/// Replacing leaves a text without the pattern as it is.
pub proof fn lemma_replaced_none(s: Seq<char>, pat: Seq<char>, rep: Seq<char>)
    requires
        lacks_text(s, pat),
    ensures
        replaced(s, pat, rep) == s,
    decreases s.len(),
{
    if s.len() > 0 {
        let t = s.skip(1);
        assert forall|i: int| !occurs_at(t, pat, i) by {
            if occurs_at(t, pat, i) {
                assert(s.subrange(i + 1, i + 1 + pat.len()) =~= t.subrange(i, i + pat.len()));
                assert(occurs_at(s, pat, i + 1));
            }
        }
        lemma_replaced_none(t, pat, rep);
        assert(seq![s[0]] + t =~= s);
    } else {
        assert(s =~= Seq::<char>::empty());
    }
}

/// Replacing in `x + y`, when no occurrence of `pat` starts in `x`, keeps
/// `x` and replaces in `y`.
pub proof fn lemma_replaced_prefix(x: Seq<char>, y: Seq<char>, pat: Seq<char>, rep: Seq<char>)
    requires
        forall|i: int| 0 <= i < x.len() ==> !occurs_at(x + y, pat, i),
    ensures
        replaced(x + y, pat, rep) == x + replaced(y, pat, rep),
    decreases x.len(),
{
    if x.len() > 0 {
        let s = x + y;
        assert(!occurs_at(s, pat, 0));
        let x1 = x.skip(1);
        assert(s.skip(1) =~= x1 + y);
        assert forall|i: int| 0 <= i < x1.len() implies !occurs_at(x1 + y, pat, i) by {
            if occurs_at(x1 + y, pat, i) {
                assert(s.subrange(i + 1, i + 1 + pat.len()) =~= (x1 + y).subrange(i, i + pat.len()));
                assert(occurs_at(s, pat, i + 1));
            }
        }
        lemma_replaced_prefix(x1, y, pat, rep);
        assert(seq![x[0]] + (x1 + replaced(y, pat, rep)) =~= x + replaced(y, pat, rep));
    } else {
        assert(x + y =~= y);
        assert(x + replaced(y, pat, rep) =~= replaced(y, pat, rep));
    }
}

/// `s` with every backslash written as `'/'`.
pub open spec fn slashed(s: Seq<char>) -> Seq<char> {
    s.map_values(|c: char| if c == '\\' { '/' } else { c })
}

/// Replacing the one-character pattern `"\\"` by `"/"` writes every
/// backslash as `'/'`.
pub proof fn lemma_replaced_backslash(s: Seq<char>)
    ensures
        replaced(s, seq!['\\'], seq!['/']) == slashed(s),
    decreases s.len(),
{
    if s.len() > 0 {
        lemma_replaced_backslash(s.skip(1));
        if occurs_at(s, seq!['\\'], 0) {
            assert(s.subrange(0, 1)[0] == s[0]);
            assert(s.skip(1) =~= s.skip(seq!['\\'].len() as int));
        } else {
            assert(s[0] != '\\') by {
                if s[0] == '\\' {
                    assert(s.subrange(0, 1) =~= seq!['\\']);
                }
            }
        }
        assert(slashed(s) =~= seq![if s[0] == '\\' { '/' } else { s[0] }] + slashed(s.skip(1)));
    } else {
        assert(slashed(s) =~= Seq::<char>::empty());
    }
}

/// Writing backslashes as `'/'` commutes with splitting at `'_'`.
pub proof fn lemma_split_slashed(s: Seq<char>)
    ensures
        split_on(slashed(s), '_') == split_on(s, '_').map_values(|p: Seq<char>| slashed(p)),
    decreases s.len(),
{
    if s.len() == 0 {
        assert(slashed(s) =~= s);
        assert(slashed(Seq::<char>::empty()) =~= Seq::<char>::empty());
        assert(split_on(s, '_').map_values(|p: Seq<char>| slashed(p)) =~= seq![Seq::<char>::empty()]);
    } else {
        let s1 = s.drop_last();
        lemma_split_slashed(s1);
        lemma_split_on_nonempty(s1, '_');
        assert(slashed(s).drop_last() =~= slashed(s1));
        let init = split_on(s1, '_');
        if s.last() == '_' {
            assert(slashed(Seq::<char>::empty()) =~= Seq::<char>::empty());
            assert(split_on(s, '_').map_values(|p: Seq<char>| slashed(p)) =~= init.map_values(
                |p: Seq<char>| slashed(p),
            ).push(Seq::<char>::empty()));
        } else {
            assert(slashed(init.last().push(s.last())) =~= slashed(init.last()).push(slashed(s).last()));
            assert(split_on(s, '_').map_values(|p: Seq<char>| slashed(p)) =~= init.map_values(
                |p: Seq<char>| slashed(p),
            ).update(init.len() - 1, slashed(init.last()).push(slashed(s).last())));
        }
    }
}

/// Writing backslashes as `'/'` commutes with joining with `'_'`.
pub proof fn lemma_joined_slashed(l: Seq<Seq<char>>)
    ensures
        joined(l.map_values(|p: Seq<char>| slashed(p)), seq!['_']) == slashed(joined(l, seq!['_'])),
    decreases l.len(),
{
    let m = l.map_values(|p: Seq<char>| slashed(p));
    if l.len() == 0 {
        assert(slashed(Seq::<char>::empty()) =~= Seq::<char>::empty());
    } else if l.len() == 1 {
    } else {
        lemma_joined_slashed(l.drop_last());
        assert(m.drop_last() =~= l.drop_last().map_values(|p: Seq<char>| slashed(p)));
        let a = joined(l.drop_last(), seq!['_']);
        assert(slashed(a + seq!['_'] + l.last()) =~= slashed(a) + seq!['_'] + slashed(l.last()));
    }
}

/// Writing backslashes as `'/'` twice is writing them once.
pub proof fn lemma_slashed_twice(s: Seq<char>)
    ensures
        slashed(slashed(s)) == slashed(s),
{
    assert(slashed(slashed(s)) =~= slashed(s));
}

/// Removing a pattern keeps a character out.
pub proof fn lemma_replaced_removal_lacks(s: Seq<char>, pat: Seq<char>, c: char)
    requires
        lacks_char(s, c),
    ensures
        lacks_char(replaced(s, pat, Seq::empty()), c),
    decreases s.len(),
{
    if s.len() > 0 {
        if pat.len() > 0 && occurs_at(s, pat, 0) {
            let t = s.skip(pat.len() as int);
            assert forall|i: int| 0 <= i < t.len() implies t[i] != c by {
                assert(t[i] == s[i + pat.len()]);
            }
            lemma_replaced_removal_lacks(t, pat, c);
            assert(Seq::<char>::empty() + replaced(t, pat, Seq::empty()) =~= replaced(t, pat, Seq::empty()));
        } else {
            let t = s.skip(1);
            assert forall|i: int| 0 <= i < t.len() implies t[i] != c by {
                assert(t[i] == s[i + 1]);
            }
            lemma_replaced_removal_lacks(t, pat, c);
            let r = seq![s[0]] + replaced(t, pat, Seq::empty());
            assert forall|i: int| 0 <= i < r.len() implies r[i] != c by {
                if i > 0 {
                    assert(r[i] == replaced(t, pat, Seq::empty())[i - 1]);
                }
            }
        }
    }
}

/// Trimming keeps a character out.
pub proof fn lemma_trimmed_lacks(s: Seq<char>, c: char)
    requires
        lacks_char(s, c),
    ensures
        lacks_char(trimmed(s), c),
{
    lemma_trim_start_suffix(s);
    let u = trim_start(s);
    assert forall|i: int| 0 <= i < u.len() implies u[i] != c by {
        assert(u[i] == s[i + s.len() - u.len()]);
    }
    lemma_trim_end_prefix(u);
    let v = trim_end(u);
    assert forall|i: int| 0 <= i < v.len() implies v[i] != c by {
        assert(v[i] == u[i]);
    }
}

/// `trim_start` keeps a suffix, which does not start with white space.
pub proof fn lemma_trim_start_suffix(s: Seq<char>)
    ensures
        trim_start(s).len() <= s.len(),
        trim_start(s) == s.skip(s.len() - trim_start(s).len()),
        trim_start(s).len() > 0 ==> !is_white_space(trim_start(s)[0]),
    decreases s.len(),
{
    if s.len() > 0 && is_white_space(s[0]) {
        lemma_trim_start_suffix(s.drop_first());
        assert(s.drop_first().skip(s.drop_first().len() - trim_start(s).len()) =~= s.skip(
            s.len() - trim_start(s).len(),
        ));
    } else {
        assert(s.skip(0) =~= s);
    }
}

/// `trim_end` keeps a prefix, which does not end with white space.
pub proof fn lemma_trim_end_prefix(s: Seq<char>)
    ensures
        trim_end(s).len() <= s.len(),
        trim_end(s) == s.take(trim_end(s).len() as int),
        trim_end(s).len() > 0 ==> !is_white_space(trim_end(s).last()),
    decreases s.len(),
{
    if s.len() > 0 && is_white_space(s.last()) {
        lemma_trim_end_prefix(s.drop_last());
        assert(s.drop_last().take(trim_end(s).len() as int) =~= s.take(trim_end(s).len() as int));
    } else {
        assert(s.take(s.len() as int) =~= s);
    }
}

/// Trimming a trimmed text leaves it as it is.
pub proof fn lemma_trimmed_twice(s: Seq<char>)
    ensures
        trimmed(trimmed(s)) == trimmed(s),
{
    let u = trim_start(s);
    let y = trim_end(u);
    lemma_trim_start_suffix(s);
    lemma_trim_end_prefix(u);
    if y.len() > 0 {
        assert(y[0] == u[0]);
    }
    assert(trim_start(y) == y);
    assert(trim_end(y) == y);
}

} // verus!
