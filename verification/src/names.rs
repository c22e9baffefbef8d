//! The list of image names that the program keeps: how a name is
//! normalised, the set that holds the names, and the text of the list file.

use vstd::prelude::*;
use crate::text::{
    chars_of, joined, join_chars, lemma_lex_asymmetric, lemma_lex_irreflexive, lemma_lex_total,
    lemma_lex_transitive, lex_less, lex_lt, replace_all, replaced, same_chars, string_of, trim_chars,
    trimmed, views, lacks_char, lemma_joined_last, lemma_split_joined, lines_of, strip_cr,
    trim_start, lines_chars, split_chars, split_on, slashed,
    lemma_split_slashed, lemma_joined_slashed, lemma_replaced_backslash, lemma_slashed_twice,
    lemma_split_on_nonempty, contains_text, occurs_at, lemma_replaced_removal_lacks,
    lemma_trimmed_lacks, lemma_replaced_none, lemma_trimmed_twice,
};
use crate::paths::{dot, dot_dot};

verus! {

/// The characters of `".png"`.
pub open spec fn png_ext() -> Seq<char> {
    seq!['.', 'p', 'n', 'g']
}

/// The normal form of an image name: backslashes become slashes, every
/// `".png"` is removed, and surrounding white space is trimmed.
pub open spec fn standard_name(s: Seq<char>) -> Seq<char> {
    trimmed(replaced(replaced(s, seq!['\\'], seq!['/']), png_ext(), Seq::empty()))
}

/// `standard_name` on characters.
pub fn standardify_chars(s: &Vec<char>) -> (r: Vec<char>)
    ensures
        r@ == standard_name(s@),
{
    let backslash = vec!['\\'];
    let slash = vec!['/'];
    assert(backslash@ =~= seq!['\\']);
    assert(slash@ =~= seq!['/']);
    let a = replace_all(s, &backslash, &slash);
    let png = vec!['.', 'p', 'n', 'g'];
    let nothing: Vec<char> = Vec::new();
    assert(png@ =~= png_ext());
    assert(nothing@ =~= Seq::<char>::empty());
    let b = replace_all(&a, &png, &nothing);
    trim_chars(&b)
}

/// The normal form of an image name (see `standard_name`).
pub fn standardify(string: &str) -> (r: String)
    ensures
        r@ == standard_name(string@),
{
    let s = chars_of(string);
    let t = standardify_chars(&s);
    string_of(&t)
}

/// Law: a name in normal form stays as it is when normalised again, unless
/// removing `".png"` has joined the pieces of a new `".png"` (as in
/// `"a.p.pngng"`, whose normal form `"a.png"` is not yet normal).
pub proof fn law_standard_name_idempotent(s: Seq<char>)
    requires
        !contains_text(standard_name(s), png_ext()),
    ensures
        standard_name(standard_name(s)) == standard_name(s),
{
    let a = replaced(s, seq!['\\'], seq!['/']);
    let b = replaced(a, png_ext(), Seq::empty());
    let y = standard_name(s);
    lemma_replaced_backslash(s);
    assert(lacks_char(a, '\\'));
    lemma_replaced_removal_lacks(a, png_ext(), '\\');
    lemma_trimmed_lacks(b, '\\');
    assert forall|i: int| !occurs_at(y, seq!['\\'], i) by {
        if occurs_at(y, seq!['\\'], i) {
            assert(y.subrange(i, i + 1)[0] == y[i]);
        }
    }
    lemma_replaced_none(y, seq!['\\'], seq!['/']);
    lemma_replaced_none(y, png_ext(), Seq::empty());
    lemma_trimmed_twice(b);
}

/// A set of image names, kept as a vector in which no name occurs twice.
pub struct ImageSet {
    names: Vec<String>,
}

impl ImageSet {
    /// The names, in the order they were added.
    pub closed spec fn entries(&self) -> Seq<Seq<char>> {
        self.names@.map_values(|s: String| s@)
    }

    #[verifier::type_invariant]
    spec fn no_repeats(&self) -> bool {
        forall|i: int, j: int|
            0 <= i < j < self.names@.len() ==> self.names@[i]@ != self.names@[j]@
    }

    /// An empty set.
    pub fn new() -> (r: ImageSet)
        ensures
            r@ == Set::<Seq<char>>::empty(),
    {
        let r = ImageSet { names: Vec::new() };
        assert(r@ =~= Set::<Seq<char>>::empty());
        r
    }

    /// Whether `name` is in the set.
    pub fn contains(&self, name: &str) -> (r: bool)
        ensures
            r == self@.contains(name@),
    {
        let target = name.to_owned();
        let mut i: usize = 0;
        while i < self.names.len()
            invariant
                i <= self.names.len(),
                target@ == name@,
                forall|j: int| 0 <= j < i ==> self.names@[j]@ != name@,
            decreases self.names.len() - i,
        {
            if self.names[i] == target {
                assert(self.entries()[i as int] == name@);
                return true;
            }
            i += 1;
        }
        assert(!self@.contains(name@)) by {
            if self.entries().contains(name@) {
                let k = choose|k: int| 0 <= k < self.entries().len() && self.entries()[k] == name@;
                assert(self.names@[k]@ == name@);
            }
        }
        false
    }

    /// Adds `name`; answers whether it was not there before.
    pub fn insert(&mut self, name: String) -> (r: bool)
        ensures
            final(self)@ == old(self)@.insert(name@),
            r == !old(self)@.contains(name@),
    {
        if self.contains(name.as_str()) {
            assert(self@.insert(name@) =~= self@);
            return false;
        }
        proof {
            use_type_invariant(&*self);
        }
        let ghost before = self.entries();
        let mut names: Vec<String> = Vec::new();
        std::mem::swap(&mut names, &mut self.names);
        assert(names@.map_values(|s: String| s@) == before);
        let ghost name_view = name@;
        names.push(name);
        assert(names@.map_values(|s: String| s@) =~= before.push(name_view));
        assert forall|i: int, j: int|
            0 <= i < j < names@.len() implies names@[i]@ != names@[j]@ by {
            if j == names@.len() - 1 {
                assert(before[i] == names@[i]@);
                assert(before.contains(names@[i]@));
            } else {
                assert(before[i] == names@[i]@);
                assert(before[j] == names@[j]@);
            }
        }
        self.names = names;
        assert(self@ =~= before.to_set().insert(name_view)) by {
            assert(self.entries() =~= before.push(name_view));
            assert forall|x: Seq<char>| self.entries().contains(x) <==> before.to_set().insert(name_view).contains(x) by {
                if self.entries().contains(x) {
                    let k = choose|k: int| 0 <= k < self.entries().len() && self.entries()[k] == x;
                    if k < before.len() {
                        assert(before[k] == x);
                    }
                }
                if before.contains(x) {
                    let k = choose|k: int| 0 <= k < before.len() && before[k] == x;
                    assert(self.entries()[k] == x);
                }
                if x == name_view {
                    assert(self.entries()[before.len() as int] == x);
                }
            }
        }
        true
    }

    /// The number of names.
    pub fn len(&self) -> (r: usize)
        ensures
            r == self@.len(),
    {
        proof {
            use_type_invariant(self);
            assert forall|i: int, j: int|
                0 <= i < self.entries().len() && 0 <= j < self.entries().len() && i != j
                implies self.entries()[i] != self.entries()[j] by {
                if i < j {
                    assert(self.names@[i]@ != self.names@[j]@);
                } else {
                    assert(self.names@[j]@ != self.names@[i]@);
                }
            }
            self.entries().unique_seq_to_set();
        }
        self.names.len()
    }
}

impl View for ImageSet {
    type V = Set<Seq<char>>;

    closed spec fn view(&self) -> Set<Seq<char>> {
        self.entries().to_set()
    }
}

/// The texts of `l` come in strictly increasing order.
pub open spec fn strictly_sorted(l: Seq<Seq<char>>) -> bool {
    forall|i: int, j: int| 0 <= i < j < l.len() ==> lex_lt(l[i], l[j])
}

/// `l` lists the texts of `names`, each once, in increasing order.
pub open spec fn is_listing(l: Seq<Seq<char>>, names: Set<Seq<char>>) -> bool {
    strictly_sorted(l) && l.to_set() == names
}

/// The names that the list file holds for a set: the normal forms of the
/// set's names, without the empty one.
pub open spec fn listed_names(set: Set<Seq<char>>) -> Set<Seq<char>> {
    set.map(|s: Seq<char>| standard_name(s)).filter(|s: Seq<char>| s.len() > 0)
}

/// The text of the list file: a listing joined with line breaks.
pub open spec fn list_text(text: Seq<char>, set: Set<Seq<char>>) -> bool {
    exists|l: Seq<Seq<char>>| is_listing(l, listed_names(set)) && text == joined(l, seq!['\n'])
}

/// Inserts `x` into the strictly sorted `sorted`, unless it is there already.
fn insert_sorted(sorted: &mut Vec<Vec<char>>, x: Vec<char>)
    requires
        strictly_sorted(views(old(sorted)@)),
    ensures
        strictly_sorted(views(final(sorted)@)),
        views(final(sorted)@).to_set() == views(old(sorted)@).to_set().insert(x@),
{
    let ghost s = views(sorted@);
    let mut k: usize = 0;
    while k < sorted.len() && lex_less(&sorted[k], &x)
        invariant
            k <= sorted.len(),
            s == views(sorted@),
            strictly_sorted(s),
            forall|j: int| 0 <= j < k ==> lex_lt(s[j], x@),
        decreases sorted.len() - k,
    {
        k += 1;
    }
    if k < sorted.len() && same_chars(&sorted[k], &x) {
        assert(s.to_set().insert(x@) =~= s.to_set()) by {
            assert(s[k as int] == x@);
        }
        return;
    }
    proof {
        if k < sorted.len() {
            assert(s[k as int] == sorted@[k as int]@);
            lemma_lex_total(s[k as int], x@);
        }
        assert forall|j: int| k <= j < s.len() implies lex_lt(x@, s[j]) by {
            if j > k {
                lemma_lex_transitive(x@, s[k as int], s[j]);
            }
        }
    }
    let ghost xv = x@;
    sorted.insert(k, x);
    let ghost t = views(sorted@);
    assert(t =~= s.insert(k as int, xv));
    assert forall|i: int, j: int| 0 <= i < j < t.len() implies lex_lt(t[i], t[j]) by {
        if j < k {
        } else if j == k {
        } else if i < k {
            lemma_lex_transitive(t[i], xv, t[j]);
        } else if i == k {
        } else {
        }
    }
    assert forall|y: Seq<char>| t.contains(y) <==> s.to_set().insert(xv).contains(y) by {
        if t.contains(y) {
            let m = choose|m: int| 0 <= m < t.len() && t[m] == y;
            if m < k {
                assert(s[m] == y);
            } else if m > k {
                assert(s[m - 1] == y);
            }
        }
        if s.contains(y) {
            let m = choose|m: int| 0 <= m < s.len() && s[m] == y;
            if m < k {
                assert(t[m] == y);
            } else {
                assert(t[m + 1] == y);
            }
        }
        if y == xv {
            assert(t[k as int] == y);
        }
    }
    assert(t.to_set() =~= s.to_set().insert(xv));
}

/// The text of the list file for a set of names: the normal forms of the
/// names, without the empty one, each once, in increasing order, one per
/// line, with no line break after the last.
pub fn stringify(all_images: &ImageSet) -> (r: String)
    ensures
        list_text(r@, all_images@),
{
    let mut sorted: Vec<Vec<char>> = Vec::new();
    let n = all_images.names.len();
    let ghost entries = all_images.entries();
    let mut i: usize = 0;
    assert(views(sorted@).to_set() =~= Set::<Seq<char>>::empty());
    while i < n
        invariant
            i <= n,
            n == all_images.names.len(),
            entries == all_images.entries(),
            strictly_sorted(views(sorted@)),
            forall|y: Seq<char>| #![trigger views(sorted@).to_set().contains(y)]
                views(sorted@).to_set().contains(y) <==> (y.len() > 0 && exists|j: int|
                    0 <= j < i && standard_name(entries[j]) == y),
        decreases n - i,
    {
        let name = chars_of(all_images.names[i].as_str());
        assert(name@ == entries[i as int]);
        let normal = standardify_chars(&name);
        let ghost before = views(sorted@).to_set();
        if normal.len() > 0 {
            let ghost nv = normal@;
            insert_sorted(&mut sorted, normal);
            assert forall|y: Seq<char>| views(sorted@).to_set().contains(y) <==> (y.len() > 0
                && exists|j: int| 0 <= j < i + 1 && standard_name(entries[j]) == y) by {
                if y.len() > 0 && exists|j: int| 0 <= j < i + 1 && standard_name(entries[j]) == y {
                    let j = choose|j: int| 0 <= j < i + 1 && standard_name(entries[j]) == y;
                    if j < i {
                        assert(before.contains(y));
                    }
                }
                if before.contains(y) {
                    let j = choose|j: int| 0 <= j < i && standard_name(entries[j]) == y;
                    assert(0 <= j < i + 1);
                }
                if y == nv {
                    assert(standard_name(entries[i as int]) == y);
                }
            }
        } else {
            assert forall|y: Seq<char>| views(sorted@).to_set().contains(y) <==> (y.len() > 0
                && exists|j: int| 0 <= j < i + 1 && standard_name(entries[j]) == y) by {
                if y.len() > 0 && exists|j: int| 0 <= j < i + 1 && standard_name(entries[j]) == y {
                    let j = choose|j: int| 0 <= j < i + 1 && standard_name(entries[j]) == y;
                    if j < i {
                        assert(before.contains(y));
                    }
                }
                if before.contains(y) {
                    let j = choose|j: int| 0 <= j < i && standard_name(entries[j]) == y;
                    assert(0 <= j < i + 1);
                }
            }
        }
        i += 1;
    }
    let newline = vec!['\n'];
    assert(newline@ =~= seq!['\n']);
    let text = join_chars(&sorted, &newline);
    let ghost l = views(sorted@);
    assert(l.to_set() =~= listed_names(all_images@)) by {
        assert forall|y: Seq<char>| l.to_set().contains(y) <==> listed_names(all_images@).contains(y) by {
            if l.to_set().contains(y) {
                let j = choose|j: int| 0 <= j < n && standard_name(entries[j]) == y;
                assert(entries.contains(entries[j]));
                assert(all_images@.contains(entries[j]));
            }
            if listed_names(all_images@).contains(y) {
                let x = choose|x: Seq<char>| all_images@.contains(x) && standard_name(x) == y;
                let j = choose|j: int| 0 <= j < entries.len() && entries[j] == x;
                assert(standard_name(entries[j]) == y);
                assert(views(sorted@).to_set().contains(y));
            }
        }
    }
    let r = string_of(&text);
    assert(is_listing(l, listed_names(all_images@)));
    assert(r@ == joined(l, seq!['\n']));
    r
}

/// Two strictly sorted sequences with the same elements are equal.
pub proof fn lemma_listing_unique(l1: Seq<Seq<char>>, l2: Seq<Seq<char>>)
    requires
        strictly_sorted(l1),
        strictly_sorted(l2),
        l1.to_set() == l2.to_set(),
    ensures
        l1 == l2,
    decreases l1.len(),
{
    if l1.len() == 0 {
        if l2.len() > 0 {
            assert(l2.to_set().contains(l2[0]));
        }
        assert(l1 =~= l2);
    } else {
        assert(l1.to_set().contains(l1[0]));
        assert(l2.len() > 0);
        assert(l2.to_set().contains(l2[0]));
        let k = choose|k: int| 0 <= k < l1.len() && l1[k] == l2[0];
        let m = choose|m: int| 0 <= m < l2.len() && l2[m] == l1[0];
        if k > 0 && m > 0 {
            lemma_lex_asymmetric(l1[0], l2[0]);
        }
        if k > 0 && m == 0 {
            lemma_lex_irreflexive(l1[0]);
        }
        if k == 0 && m > 0 {
            lemma_lex_irreflexive(l2[0]);
        }
        assert(l1[0] == l2[0]);
        let r1 = l1.drop_first();
        let r2 = l2.drop_first();
        assert forall|y: Seq<char>| r1.to_set().contains(y) <==> r2.to_set().contains(y) by {
            if r1.contains(y) {
                let a = choose|a: int| 0 <= a < r1.len() && r1[a] == y;
                assert(l1[a + 1] == y);
                assert(l2.to_set().contains(y));
                let b = choose|b: int| 0 <= b < l2.len() && l2[b] == y;
                if b == 0 {
                    lemma_lex_irreflexive(l1[0]);
                }
                assert(r2[b - 1] == y);
            }
            if r2.contains(y) {
                let a = choose|a: int| 0 <= a < r2.len() && r2[a] == y;
                assert(l2[a + 1] == y);
                assert(l1.to_set().contains(y));
                let b = choose|b: int| 0 <= b < l1.len() && l1[b] == y;
                if b == 0 {
                    lemma_lex_irreflexive(l2[0]);
                }
                assert(r1[b - 1] == y);
            }
        }
        assert(r1.to_set() =~= r2.to_set());
        lemma_listing_unique(r1, r2);
        assert(l1 =~= seq![l1[0]] + r1);
        assert(l2 =~= seq![l2[0]] + r2);
    }
}

/// Law: the list file's text depends on nothing but the set of names; two
/// texts that both list the same set are the same text.
pub proof fn law_list_text_unique(t1: Seq<char>, t2: Seq<char>, set: Set<Seq<char>>)
    requires
        list_text(t1, set),
        list_text(t2, set),
    ensures
        t1 == t2,
{
    let l1 = choose|l: Seq<Seq<char>>| is_listing(l, listed_names(set)) && t1 == joined(l, seq!['\n']);
    let l2 = choose|l: Seq<Seq<char>>| is_listing(l, listed_names(set)) && t2 == joined(l, seq!['\n']);
    lemma_listing_unique(l1, l2);
}

/// Law: reading the lines of a list text gives back the listed texts, when
/// none of them holds a line break, is empty, or ends with a carriage return.
pub proof fn law_joined_lines_read_back(l: Seq<Seq<char>>)
    requires
        forall|i: int| 0 <= i < l.len() ==> {
            &&& lacks_char(#[trigger] l[i], '\n')
            &&& l[i].len() > 0
            &&& l[i].last() != '\r'
        },
    ensures
        lines_of(joined(l, seq!['\n'])) == l,
{
    let s = joined(l, seq!['\n']);
    if l.len() == 0 {
        assert(lines_of(s) =~= l);
    } else {
        lemma_split_joined(l, '\n');
        lemma_joined_last(l, seq!['\n']);
        assert(l[l.len() - 1].len() > 0);
        assert(lacks_char(l[l.len() - 1], '\n'));
        assert(s.last() != '\n');
        let mapped = l.drop_last().map_values(|p: Seq<char>| strip_cr(p));
        assert forall|i: int| 0 <= i < mapped.len() implies mapped[i] == l[i] by {
            assert(l[i].last() != '\r');
        }
        assert(mapped.push(l.last()) =~= l);
    }
}

/// Law: the lines of the list file for a set are exactly its listed names,
/// in increasing order, when no name holds a line break.
pub proof fn law_list_text_lines(text: Seq<char>, set: Set<Seq<char>>)
    requires
        list_text(text, set),
        forall|y: Seq<char>| listed_names(set).contains(y) ==> lacks_char(y, '\n'),
    ensures
        is_listing(lines_of(text), listed_names(set)),
{
    let l = choose|l: Seq<Seq<char>>| is_listing(l, listed_names(set)) && text == joined(l, seq!['\n']);
    assert forall|i: int| 0 <= i < l.len() implies {
        &&& lacks_char(#[trigger] l[i], '\n')
        &&& l[i].len() > 0
        &&& l[i].last() != '\r'
    } by {
        assert(l.to_set().contains(l[i]));
        let x = choose|x: Seq<char>| set.contains(x) && standard_name(x) == l[i];
        crate::text::lemma_trim_end_prefix(trim_start(replaced(replaced(x, seq!['\\'], seq!['/']), png_ext(), Seq::empty())));
    }
    law_joined_lines_read_back(l);
}

/// The names that a list file's text holds: the normal form of each line.
pub open spec fn file_names(content: Seq<char>) -> Set<Seq<char>> {
    lines_of(content).map_values(|l: Seq<char>| standard_name(l)).to_set()
}

/// Adds the normal form of each of `lines` to the set, or each line as it is
/// when `normalise` is false.
fn insert_lines(all_images: &mut ImageSet, lines: &Vec<Vec<char>>, normalise: bool)
    ensures
        normalise ==> final(all_images)@ == old(all_images)@.union(
            views(lines@).map_values(|l: Seq<char>| standard_name(l)).to_set(),
        ),
        !normalise ==> final(all_images)@ == old(all_images)@.union(views(lines@).to_set()),
{
    let ghost target = if normalise {
        views(lines@).map_values(|l: Seq<char>| standard_name(l))
    } else {
        views(lines@)
    };
    let mut i: usize = 0;
    assert(target.take(0).to_set() =~= Set::<Seq<char>>::empty());
    assert(all_images@ =~= old(all_images)@.union(target.take(0).to_set()));
    while i < lines.len()
        invariant
            i <= lines.len(),
            target.len() == lines.len(),
            target == (if normalise {
                views(lines@).map_values(|l: Seq<char>| standard_name(l))
            } else {
                views(lines@)
            }),
            all_images@ == old(all_images)@.union(target.take(i as int).to_set()),
        decreases lines.len() - i,
    {
        let name = if normalise {
            standardify_chars(&lines[i])
        } else {
            crate::text::copy_chars(&lines[i])
        };
        assert(name@ == target[i as int]);
        let ghost before = all_images@;
        all_images.insert(string_of(&name));
        i += 1;
        assert(target.take(i as int) =~= target.take(i - 1).push(target[i - 1]));
        assert(target.take(i as int).to_set() =~= target.take(i - 1).to_set().insert(target[i - 1]))
            by {
            Seq::<Seq<char>>::lemma_to_set_insert_commutes(target.take(i - 1), target[i - 1]);
            assert(target.take(i - 1) + seq![target[i - 1]] =~= target.take(i as int));
        }
        assert(all_images@ =~= old(all_images)@.union(target.take(i as int).to_set()));
    }
    assert(target.take(i as int) =~= target);
}

/// Adds to the set the normal form of every line of a list file's text.
pub fn read_from_file(all_images: &mut ImageSet, content: &str)
    ensures
        final(all_images)@ == old(all_images)@.union(file_names(content@)),
{
    let chars = chars_of(content);
    let lines = lines_chars(&chars);
    insert_lines(all_images, &lines, true);
}

/// The text of the list file after adding the lines of `content`, as they
/// are, to the names of the list file whose text is `file_content`.
pub fn push_string(file_content: &str, content: &str) -> (r: String)
    ensures
        list_text(r@, file_names(file_content@).union(lines_of(content@).to_set())),
{
    let mut all_images = ImageSet::new();
    read_from_file(&mut all_images, file_content);
    let chars = chars_of(content);
    let lines = lines_chars(&chars);
    insert_lines(&mut all_images, &lines, false);
    assert(all_images@ =~= file_names(file_content@).union(lines_of(content@).to_set()));
    stringify(&all_images)
}

/// The text of the list file after adding the names that a bruteforce has
/// found, as they are, to the names of the list file whose text is
/// `file_content`.
pub fn list_with_found(file_content: &str, found: &Vec<String>) -> (r: String)
    ensures
        list_text(r@, file_names(file_content@).union(found@.map_values(|s: String| s@).to_set())),
{
    let ghost names = found@.map_values(|s: String| s@);
    let mut lines: Vec<Vec<char>> = Vec::new();
    let mut i: usize = 0;
    while i < found.len()
        invariant
            i <= found.len(),
            names == found@.map_values(|s: String| s@),
            views(lines@) == names.take(i as int),
        decreases found.len() - i,
    {
        let c = chars_of(found[i].as_str());
        let ghost before = lines@;
        lines.push(c);
        assert(views(lines@) =~= views(before).push(c@));
        i += 1;
        assert(names.take(i as int) =~= names.take(i - 1).push(names[i - 1]));
    }
    assert(names.take(i as int) =~= names);
    let mut all_images = ImageSet::new();
    read_from_file(&mut all_images, file_content);
    insert_lines(&mut all_images, &lines, false);
    assert(all_images@ =~= file_names(file_content@).union(names.to_set()));
    stringify(&all_images)
}

/// The name that an image file in the mail folder stands for, from its path
/// relative to the folder: the path without its last `'_'`-separated part
/// (the version and extension), in normal form.
pub open spec fn folder_entry_name(relative: Seq<char>) -> Seq<char> {
    standard_name(joined(split_on(relative, '_').drop_last(), seq!['_']))
}

/// The name that an image file in the mail folder stands for (see
/// `folder_entry_name`).
pub fn image_name_from_relative(relative: &str) -> (r: String)
    ensures
        r@ == folder_entry_name(relative@),
{
    let chars = chars_of(relative);
    let mut segments = split_chars(&chars, '_');
    proof {
        crate::text::lemma_split_on_nonempty(chars@, '_');
    }
    let ghost all = views(segments@);
    segments.pop();
    assert(views(segments@) =~= all.drop_last());
    let underscore = vec!['_'];
    assert(underscore@ =~= seq!['_']);
    let joined_name = join_chars(&segments, &underscore);
    let normal = standardify_chars(&joined_name);
    string_of(&normal)
}

/// A plain relative path: non-empty parts between single `'/'`, none of
/// them `"."` or `".."`, and no `'\\'` or `':'` anywhere.
pub open spec fn plain_relative(s: Seq<char>) -> bool {
    &&& s.len() > 0
    &&& forall|i: int| 0 <= i < s.len() ==> s[i] != '\\' && s[i] != ':'
    &&& forall|i: int|
        #![trigger split_on(s, '/')[i]]
        0 <= i < split_on(s, '/').len() ==> {
            &&& split_on(s, '/')[i].len() > 0
            &&& split_on(s, '/')[i] != dot()
            &&& split_on(s, '/')[i] != dot_dot()
        }
}

/// A folder that paths can plainly lie under: a non-empty text without
/// `'\\'` or `':'`, which neither starts with two `'/'` nor is `"/"` alone
/// (its `"."` and `".."` parts, and repeated `'/'` after the start, are
/// allowed).
pub open spec fn plain_folder(base: Seq<char>) -> bool {
    &&& base.len() > 0
    &&& forall|i: int| 0 <= i < base.len() ==> base[i] != '\\' && base[i] != ':'
    &&& !(base.len() >= 2 && base[0] == '/' && base[1] == '/')
    &&& base != seq!['/']
}

/// `path` is the plain folder `base`, a `'/'`, and a plain relative path.
pub open spec fn plainly_under(path: Seq<char>, base: Seq<char>) -> bool {
    &&& plain_folder(base)
    &&& path.len() > base.len() + 1
    &&& path.take(base.len() as int) == base
    &&& path[base.len() as int] == '/'
    &&& plain_relative(path.skip(base.len() as int + 1))
}

/// What follows the folder `base` and its `'/'` in `path`.
pub open spec fn rest_under(path: Seq<char>, base: Seq<char>) -> Seq<char> {
    path.skip(base.len() as int + 1)
}

/// Each of the paths lies plainly under the folder.
pub open spec fn all_plainly_under(paths: Seq<String>, base: Seq<char>) -> bool {
    forall|i: int| 0 <= i < paths.len() ==> plainly_under(#[trigger] paths[i]@, base)
}

/// What follows the folder in each of the paths.
pub open spec fn rests_under(paths: Seq<String>, base: Seq<char>) -> Seq<Seq<char>> {
    paths.map_values(|p: String| rest_under(p@, base))
}

/// `pathdiff::diff_paths(path, base)`, as text: the path that leads from
/// `base` to `path`. Stated: when `path` is a plain folder `base` (see
/// `plain_folder`), a `'/'` and a plain relative path, the path starts with
/// the components of the folder, `diff_paths` skips them and keeps the
/// rest, and the result is that relative path, its parts joined by the
/// build target's separator (written back as `'/'` here). Not stated: the
/// result for other paths, which rests on how the build target reads paths
/// (which separators count, which prefixes there are, what is absolute);
/// that covers a path with `'\\'` after the folder, which Windows reads as a
/// separator and Unix does not. On a result that is not valid text the
/// answer is `None`.
#[verifier::external_body]
fn relative_to(path: &str, base: &str) -> (r: Option<String>)
    ensures
        plainly_under(path@, base@) ==> r is Some && slashed(r.unwrap()@) == rest_under(path@, base@),
{
    match pathdiff::diff_paths(path, base) {
        Some(p) => p.into_os_string().into_string().ok(),
        None => None,
    }
}

/// The paths of `paths` relative to `mail_folder`, one for each, or `None`
/// when one of them cannot be made relative to it; with no paths, there is
/// nothing to relate and the answer is the empty list. For paths that lie
/// plainly in the folder, each relative path is what follows the folder.
pub fn relative_paths(paths: &Vec<String>, mail_folder: &str) -> (r: Option<Vec<String>>)
    ensures
        r matches Some(rels) ==> rels.len() == paths.len(),
        paths.len() == 0 ==> r is Some,
        all_plainly_under(paths@, mail_folder@) ==> r is Some && forall|i: int|
            0 <= i < paths.len() ==> slashed(#[trigger] r.unwrap()@[i]@) == rest_under(
                paths@[i]@,
                mail_folder@,
            ),
{
    let mut rels: Vec<String> = Vec::new();
    let mut i: usize = 0;
    while i < paths.len()
        invariant
            i <= paths.len(),
            rels.len() == i,
            all_plainly_under(paths@, mail_folder@) ==> forall|j: int|
                0 <= j < i ==> slashed(#[trigger] rels@[j]@) == rest_under(paths@[j]@, mail_folder@),
        decreases paths.len() - i,
    {
        match relative_to(paths[i].as_str(), mail_folder) {
            Some(rel) => rels.push(rel),
            None => {
                assert(!plainly_under(paths@[i as int]@, mail_folder@));
                return None;
            },
        }
        i += 1;
    }
    Some(rels)
}

/// The name that an image file stands for does not change when its
/// backslashes are written as `'/'`.
pub proof fn lemma_folder_entry_slashed(x: Seq<char>)
    ensures
        folder_entry_name(slashed(x)) == folder_entry_name(x),
{
    let segs = split_on(x, '_');
    lemma_split_slashed(x);
    lemma_split_on_nonempty(x, '_');
    assert(split_on(slashed(x), '_').drop_last() =~= segs.drop_last().map_values(
        |p: Seq<char>| slashed(p),
    ));
    lemma_joined_slashed(segs.drop_last());
    let j = joined(segs.drop_last(), seq!['_']);
    lemma_replaced_backslash(j);
    lemma_replaced_backslash(slashed(j));
    lemma_slashed_twice(j);
}

/// The names that image files stand for, from their paths relative to the
/// mail folder.
pub open spec fn folder_names(relatives: Seq<Seq<char>>) -> Set<Seq<char>> {
    relatives.map_values(|r: Seq<char>| folder_entry_name(r)).to_set()
}

/// Adds the names that the files at `relatives` (relative to the mail
/// folder) stand for.
pub fn add_folder_names(all_images: &mut ImageSet, relatives: &Vec<String>)
    ensures
        final(all_images)@ == old(all_images)@.union(
            folder_names(relatives@.map_values(|r: String| r@)),
        ),
{
    let ghost rels = relatives@.map_values(|r: String| r@);
    let ghost target = rels.map_values(|r: Seq<char>| folder_entry_name(r));
    let mut i: usize = 0;
    assert(all_images@ =~= old(all_images)@.union(target.take(0).to_set()));
    while i < relatives.len()
        invariant
            i <= relatives.len(),
            rels == relatives@.map_values(|r: String| r@),
            target == rels.map_values(|r: Seq<char>| folder_entry_name(r)),
            all_images@ == old(all_images)@.union(target.take(i as int).to_set()),
        decreases relatives.len() - i,
    {
        let name = image_name_from_relative(relatives[i].as_str());
        assert(name@ == target[i as int]);
        all_images.insert(name);
        i += 1;
        assert(target.take(i as int).to_set() =~= target.take(i - 1).to_set().insert(target[i - 1]))
            by {
            Seq::<Seq<char>>::lemma_to_set_insert_commutes(target.take(i - 1), target[i - 1]);
            assert(target.take(i - 1) + seq![target[i - 1]] =~= target.take(i as int));
        }
        assert(all_images@ =~= old(all_images)@.union(target.take(i as int).to_set()));
    }
    assert(target.take(i as int) =~= target);
}

/// Adds the names that the image files at `paths` stand for, given the
/// path of the mail folder that holds them. Answers false, and adds
/// nothing, when one of the paths cannot be made relative to the folder.
/// With no paths it answers true and the set stays as it was.
pub fn read_from_mail_folder(all_images: &mut ImageSet, paths: &Vec<String>, mail_folder: &str) -> (r: bool)
    ensures
        r ==> exists|rels: Seq<Seq<char>>| #![trigger folder_names(rels)]
            rels.len() == paths.len() && final(all_images)@ == old(all_images)@.union(folder_names(rels)),
        !r ==> final(all_images)@ == old(all_images)@,
        paths.len() == 0 ==> r && final(all_images)@ == old(all_images)@,
        all_plainly_under(paths@, mail_folder@) ==> r && final(all_images)@ == old(all_images)@.union(
            folder_names(rests_under(paths@, mail_folder@)),
        ),
{
    match relative_paths(paths, mail_folder) {
        Some(rels) => {
            add_folder_names(all_images, &rels);
            let ghost rv = rels@.map_values(|r: String| r@);
            assert(rv.len() == paths.len());
            assert(folder_names(rv) == folder_names(rels@.map_values(|r: String| r@)));
            proof {
                if all_plainly_under(paths@, mail_folder@) {
                    let rs = rests_under(paths@, mail_folder@);
                    assert(rv.map_values(|r: Seq<char>| folder_entry_name(r)) =~= rs.map_values(
                        |r: Seq<char>| folder_entry_name(r),
                    )) by {
                        assert forall|i: int| 0 <= i < rv.len() implies folder_entry_name(rv[i])
                            == folder_entry_name(rs[i]) by {
                            assert(slashed(rels@[i]@) == rest_under(paths@[i]@, mail_folder@));
                            lemma_folder_entry_slashed(rv[i]);
                        }
                    }
                }
                if paths.len() == 0 {
                    assert(folder_names(rv) =~= Set::<Seq<char>>::empty());
                    assert(all_images@ =~= old(all_images)@.union(folder_names(rv)));
                    assert(old(all_images)@.union(Set::<Seq<char>>::empty()) =~= old(all_images)@);
                }
            }
            true
        },
        None => false,
    }
}

/// The text of the list file after a save: the names of the list file
/// whose text is `file_content` together with the names of the image files
/// at `paths` in the mail folder. `None` when one of the paths cannot be
/// made relative to the folder. With no paths, the text lists the names of
/// the list file alone.
pub fn save(file_content: &str, paths: &Vec<String>, mail_folder: &str) -> (r: Option<String>)
    ensures
        r matches Some(text) ==> exists|rels: Seq<Seq<char>>| #![trigger folder_names(rels)]
            rels.len() == paths.len() && list_text(text@, file_names(file_content@).union(folder_names(rels))),
        paths.len() == 0 ==> r is Some && list_text(r.unwrap()@, file_names(file_content@)),
        all_plainly_under(paths@, mail_folder@) ==> r is Some && list_text(
            r.unwrap()@,
            file_names(file_content@).union(folder_names(rests_under(paths@, mail_folder@))),
        ),
{
    let mut all_images = ImageSet::new();
    read_from_file(&mut all_images, file_content);
    if read_from_mail_folder(&mut all_images, paths, mail_folder) {
        let text = stringify(&all_images);
        proof {
            let rels = choose|rels: Seq<Seq<char>>| #![trigger folder_names(rels)]
                rels.len() == paths.len() && all_images@ == Set::<Seq<char>>::empty().union(
                    file_names(file_content@),
                ).union(folder_names(rels));
            assert(all_images@ =~= file_names(file_content@).union(folder_names(rels)));
            if paths.len() == 0 {
                assert(all_images@ =~= file_names(file_content@));
            }
            if all_plainly_under(paths@, mail_folder@) {
                assert(all_images@ =~= file_names(file_content@).union(
                    folder_names(rests_under(paths@, mail_folder@)),
                ));
            }
        }
        Some(text)
    } else {
        None
    }
}

/// Law: a list file whose names are already in normal form and hold no
/// line break is saved again unchanged: its text is the list text of the
/// names that it holds.
pub proof fn law_save_stable(text: Seq<char>, set: Set<Seq<char>>)
    requires
        list_text(text, set),
        forall|y: Seq<char>| #[trigger] listed_names(set).contains(y) ==> lacks_char(y, '\n') && standard_name(y) == y,
    ensures
        list_text(text, file_names(text)),
{
    let l = choose|l: Seq<Seq<char>>| is_listing(l, listed_names(set)) && text == joined(l, seq!['\n']);
    law_list_text_lines(text, set);
    lemma_listing_unique(lines_of(text), l);
    assert forall|i: int| 0 <= i < l.len() implies standard_name(l[i]) == l[i] && l[i].len() > 0 by {
        assert(l.to_set().contains(l[i]));
        assert(listed_names(set).contains(l[i]));
    }
    assert(lines_of(text).map_values(|x: Seq<char>| standard_name(x)) =~= l);
    assert(file_names(text) == l.to_set());
    assert(listed_names(file_names(text)) =~= l.to_set()) by {
        assert forall|y: Seq<char>| listed_names(l.to_set()).contains(y) <==> l.to_set().contains(y) by {
            if l.to_set().contains(y) {
                let i = choose|i: int| 0 <= i < l.len() && l[i] == y;
                assert(l.to_set().contains(l[i]) && standard_name(l[i]) == y);
            }
            if listed_names(l.to_set()).contains(y) {
                let x = choose|x: Seq<char>| l.to_set().contains(x) && standard_name(x) == y;
                let i = choose|i: int| 0 <= i < l.len() && l[i] == x;
            }
        }
    }
    assert(is_listing(l, listed_names(file_names(text))));
}

/// Every name of the set has a normal form without line breaks or `".png"`.
pub open spec fn plain_names(set: Set<Seq<char>>) -> bool {
    forall|x: Seq<char>| #[trigger] set.contains(x) ==> lacks_char(standard_name(x), '\n') && !contains_text(
        standard_name(x),
        png_ext(),
    )
}

/// The listed names of a set of plain names are their own normal forms.
proof fn lemma_listed_names_normal(set: Set<Seq<char>>)
    requires
        plain_names(set),
    ensures
        forall|y: Seq<char>| #[trigger] listed_names(set).contains(y) ==> lacks_char(y, '\n') && standard_name(y) == y,
        listed_names(listed_names(set)) == listed_names(set),
{
    assert forall|y: Seq<char>| #[trigger] listed_names(set).contains(y) implies lacks_char(y, '\n')
        && standard_name(y) == y by {
        let x = choose|x: Seq<char>| set.contains(x) && standard_name(x) == y;
        law_standard_name_idempotent(x);
    }
    assert forall|y: Seq<char>| listed_names(listed_names(set)).contains(y) <==> listed_names(set).contains(y) by {
        if listed_names(set).contains(y) {
            assert(listed_names(set).contains(y) && standard_name(y) == y);
        }
        if listed_names(listed_names(set)).contains(y) {
            let x = choose|x: Seq<char>| listed_names(set).contains(x) && standard_name(x) == y;
        }
    }
    assert(listed_names(listed_names(set)) =~= listed_names(set));
}

/// Law: the list file is stable under a rewrite from its own lines. Given
/// the text of the list file for a set whose names have normal forms
/// without line breaks or `".png"`, the set of its lines, and the set of
/// the normal forms of its lines, both have that same text as their list
/// file.
pub proof fn law_list_rewrite_stable(text: Seq<char>, set: Set<Seq<char>>)
    requires
        list_text(text, set),
        plain_names(set),
    ensures
        list_text(text, lines_of(text).to_set()),
        list_text(text, file_names(text)),
        file_names(text) == listed_names(set),
{
    lemma_listed_names_normal(set);
    law_save_stable(text, set);
    law_list_text_lines(text, set);
    let l = choose|l: Seq<Seq<char>>| is_listing(l, listed_names(set)) && text == joined(l, seq!['\n']);
    lemma_listing_unique(lines_of(text), l);
    assert(lines_of(text).to_set() == listed_names(set));
    assert(is_listing(l, listed_names(lines_of(text).to_set())));
    assert forall|i: int| 0 <= i < l.len() implies standard_name(l[i]) == l[i] by {
        assert(l.to_set().contains(l[i]));
    }
    assert(lines_of(text).map_values(|x: Seq<char>| standard_name(x)) =~= l);
}

/// Law: two saves over the same image files write the same text. The first
/// save lists the names of the list file `content` together with `added`;
/// the second lists the names of what the first wrote together with
/// `added` again; when every such name has a normal form without line
/// breaks or `".png"`, both texts are the same.
pub proof fn law_save_twice(content: Seq<char>, added: Set<Seq<char>>, t1: Seq<char>, t2: Seq<char>)
    requires
        plain_names(file_names(content).union(added)),
        list_text(t1, file_names(content).union(added)),
        list_text(t2, file_names(t1).union(added)),
    ensures
        t1 == t2,
{
    let all = file_names(content).union(added);
    law_list_rewrite_stable(t1, all);
    lemma_listed_names_normal(all);
    let second = file_names(t1).union(added);
    assert(listed_names(second) =~= listed_names(all)) by {
        assert forall|y: Seq<char>| listed_names(second).contains(y) <==> listed_names(all).contains(y) by {
            if listed_names(second).contains(y) {
                let x = choose|x: Seq<char>| second.contains(x) && standard_name(x) == y && y.len() > 0;
                if added.contains(x) {
                    assert(all.contains(x));
                } else {
                    assert(listed_names(all).contains(x));
                }
            }
            if listed_names(all).contains(y) {
                let x = choose|x: Seq<char>| all.contains(x) && standard_name(x) == y && y.len() > 0;
                if added.contains(x) {
                    assert(second.contains(x));
                } else {
                    assert(listed_names(all).contains(y) && standard_name(y) == y);
                    assert(second.contains(y));
                }
            }
        }
    }
    law_list_text_unique(t1, t2, all);
}

} // verus!
