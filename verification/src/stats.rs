//! Counting the images of the mail folder, and choosing the ones to copy
//! elsewhere.

use vstd::prelude::*;
use crate::text::{chars_of, contains_exec, contains_text};
use crate::images::string_views;

verus! {

/// The characters of `"_thumb_"`.
pub open spec fn thumb_infix() -> Seq<char> {
    seq!['_', 't', 'h', 'u', 'm', 'b', '_']
}

/// A file name is that of a thumbnail: it holds `"_thumb_"`.
pub open spec fn is_thumb_file_name(name: Seq<char>) -> bool {
    contains_text(name, thumb_infix())
}

/// Whether a file name is that of a thumbnail (it holds `"_thumb_"`).
pub fn is_thumb_file(name: &str) -> (r: bool)
    ensures
        r == is_thumb_file_name(name@),
{
    let infix = vec!['_', 't', 'h', 'u', 'm', 'b', '_'];
    assert(infix@ =~= thumb_infix());
    contains_exec(&chars_of(name), &infix)
}

/// The counts and sizes of the full images and of the thumbnails.
pub struct Stats {
    pub fulls: u16,
    pub fulls_bytes: u128,
    pub thumbs: u16,
    pub thumbs_bytes: u128,
}

/// The number of entries that are thumbnails (`thumb`) or full images.
pub open spec fn count_kind(entries: Seq<(Seq<char>, Option<u64>)>, thumb: bool) -> nat
    decreases entries.len(),
{
    if entries.len() == 0 {
        0
    } else {
        count_kind(entries.drop_last(), thumb) + if is_thumb_file_name(entries.last().0) == thumb {
            1nat
        } else {
            0nat
        }
    }
}

/// The total size of the entries that are thumbnails (`thumb`) or full
/// images; an entry whose size is unknown adds nothing.
pub open spec fn bytes_kind(entries: Seq<(Seq<char>, Option<u64>)>, thumb: bool) -> nat
    decreases entries.len(),
{
    if entries.len() == 0 {
        0
    } else {
        bytes_kind(entries.drop_last(), thumb) + match entries.last().1 {
            Some(n) => if is_thumb_file_name(entries.last().0) == thumb {
                n as nat
            } else {
                0nat
            },
            None => 0nat,
        }
    }
}

/// The views of entries of file names and sizes.
pub open spec fn entry_views(v: Seq<(String, Option<u64>)>) -> Seq<(Seq<char>, Option<u64>)> {
    v.map_values(|e: (String, Option<u64>)| (e.0@, e.1))
}

proof fn lemma_bytes_bound(entries: Seq<(Seq<char>, Option<u64>)>, thumb: bool)
    ensures
        bytes_kind(entries, thumb) <= entries.len() * 0xffff_ffff_ffff_ffff,
    decreases entries.len(),
{
    if entries.len() > 0 {
        lemma_bytes_bound(entries.drop_last(), thumb);
        assert((entries.len() - 1) * 0xffff_ffff_ffff_ffffnat + 0xffff_ffff_ffff_ffffnat
            == entries.len() * 0xffff_ffff_ffff_ffffnat) by (nonlinear_arith);
    }
}

/// The counts and total sizes of the full images and of the thumbnails
/// among the files of the mail folder, given each file's name and size.
pub fn tally(entries: &Vec<(String, Option<u64>)>) -> (r: Stats)
    requires
        count_kind(entry_views(entries@), true) <= u16::MAX,
        count_kind(entry_views(entries@), false) <= u16::MAX,
    ensures
        r.thumbs == count_kind(entry_views(entries@), true),
        r.fulls == count_kind(entry_views(entries@), false),
        r.thumbs_bytes == bytes_kind(entry_views(entries@), true),
        r.fulls_bytes == bytes_kind(entry_views(entries@), false),
{
    let ghost all = entry_views(entries@);
    let mut r = Stats { fulls: 0, fulls_bytes: 0, thumbs: 0, thumbs_bytes: 0 };
    let mut i: usize = 0;
    while i < entries.len()
        invariant
            i <= entries.len(),
            all == entry_views(entries@),
            count_kind(all, true) <= u16::MAX,
            count_kind(all, false) <= u16::MAX,
            r.thumbs == count_kind(all.take(i as int), true),
            r.fulls == count_kind(all.take(i as int), false),
            r.thumbs_bytes == bytes_kind(all.take(i as int), true),
            r.fulls_bytes == bytes_kind(all.take(i as int), false),
        decreases entries.len() - i,
    {
        let ghost next = all.take(i + 1);
        assert(next.drop_last() =~= all.take(i as int));
        assert(next.last() == (entries@[i as int].0@, entries@[i as int].1));
        proof {
            lemma_count_prefix(all, i + 1, true);
            lemma_count_prefix(all, i + 1, false);
            lemma_bytes_bound(next, true);
            lemma_bytes_bound(next, false);
            assert(next.len() * 0xffff_ffff_ffff_ffffnat <= 0xffff_ffff_ffff_ffffnat
                * 0xffff_ffff_ffff_ffffnat) by (nonlinear_arith)
                requires
                    next.len() <= 0xffff_ffff_ffff_ffffnat,
            ;
        }
        let thumb = is_thumb_file(entries[i].0.as_str());
        if thumb {
            r.thumbs = r.thumbs + 1;
            if let Some(n) = entries[i].1 {
                r.thumbs_bytes = r.thumbs_bytes + n as u128;
            }
        } else {
            r.fulls = r.fulls + 1;
            if let Some(n) = entries[i].1 {
                r.fulls_bytes = r.fulls_bytes + n as u128;
            }
        }
        i += 1;
    }
    assert(all.take(i as int) =~= all);
    r
}

proof fn lemma_count_prefix(entries: Seq<(Seq<char>, Option<u64>)>, k: int, thumb: bool)
    requires
        0 <= k <= entries.len(),
    ensures
        count_kind(entries.take(k), thumb) <= count_kind(entries, thumb),
    decreases entries.len() - k,
{
    if k < entries.len() {
        lemma_count_prefix(entries.drop_last(), k, thumb);
        assert(entries.drop_last().take(k) =~= entries.take(k));
    } else {
        assert(entries.take(k) =~= entries);
    }
}

/// Law: every file counts once, as a full image or as a thumbnail.
pub proof fn law_every_file_counted(entries: Seq<(Seq<char>, Option<u64>)>)
    ensures
        count_kind(entries, true) + count_kind(entries, false) == entries.len(),
    decreases entries.len(),
{
    if entries.len() > 0 {
        law_every_file_counted(entries.drop_last());
    }
}

/// Law: counts and sizes add up over a list made of two lists: the number
/// and the total size of the thumbnails (or full images) of `a` followed by
/// `b` are those of `a` plus those of `b`.
pub proof fn law_tally_adds_up(
    a: Seq<(Seq<char>, Option<u64>)>,
    b: Seq<(Seq<char>, Option<u64>)>,
    thumb: bool,
)
    ensures
        count_kind(a + b, thumb) == count_kind(a, thumb) + count_kind(b, thumb),
        bytes_kind(a + b, thumb) == bytes_kind(a, thumb) + bytes_kind(b, thumb),
    decreases b.len(),
{
    if b.len() == 0 {
        assert(a + b =~= a);
    } else {
        law_tally_adds_up(a, b.drop_last(), thumb);
        assert((a + b).drop_last() =~= a + b.drop_last());
        assert((a + b).last() == b.last());
    }
}

/// Law: one file counts once, as a thumbnail when its name holds
/// `"_thumb_"` and as a full image otherwise, and adds its size, when it is
/// known, to the total of its kind alone.
pub proof fn law_tally_of_one_file(name: Seq<char>, size: Option<u64>)
    ensures
        count_kind(seq![(name, size)], contains_text(name, seq!['_', 't', 'h', 'u', 'm', 'b', '_'])) == 1,
        count_kind(seq![(name, size)], !contains_text(name, seq!['_', 't', 'h', 'u', 'm', 'b', '_'])) == 0,
        bytes_kind(seq![(name, size)], contains_text(name, seq!['_', 't', 'h', 'u', 'm', 'b', '_'])) == match size {
            Some(n) => n as nat,
            None => 0nat,
        },
        bytes_kind(seq![(name, size)], !contains_text(name, seq!['_', 't', 'h', 'u', 'm', 'b', '_'])) == 0,
{
    let e = seq![(name, size)];
    assert(e.drop_last() =~= Seq::<(Seq<char>, Option<u64>)>::empty());
    assert(thumb_infix() =~= seq!['_', 't', 'h', 'u', 'm', 'b', '_']);
    let t = is_thumb_file_name(name);
    assert(count_kind(e.drop_last(), t) == 0 && count_kind(e.drop_last(), !t) == 0);
    assert(count_kind(e, t) == 1);
    assert(count_kind(e, !t) == 0);
    assert(bytes_kind(e.drop_last(), t) == 0 && bytes_kind(e.drop_last(), !t) == 0);
    assert(e.last() == (name, size));
    assert(bytes_kind(e, !t) == 0);
    assert(bytes_kind(e, t) == match size {
        Some(n) => n as nat,
        None => 0nat,
    });
}

/// The positions of the names whose kind (thumbnail or not) is `thumb`, in
/// increasing order.
pub open spec fn of_kind(names: Seq<Seq<char>>, thumb: bool) -> Seq<int>
    decreases names.len(),
{
    if names.len() == 0 {
        Seq::empty()
    } else {
        let rest = of_kind(names.drop_last(), thumb);
        if is_thumb_file_name(names.last()) == thumb {
            rest.push(names.len() - 1)
        } else {
            rest
        }
    }
}

/// The positions, among the file names of the mail folder, of the files to
/// copy when moving the thumbnails (`thumb`) or the full images elsewhere.
pub fn transfer_files(names: &Vec<String>, thumb: bool) -> (r: Vec<usize>)
    ensures
        r@.map_values(|k: usize| k as int) == of_kind(string_views(names@), thumb),
{
    let ghost all = string_views(names@);
    let mut r: Vec<usize> = Vec::new();
    let mut i: usize = 0;
    assert(r@.map_values(|k: usize| k as int) =~= of_kind(all.take(0), thumb));
    while i < names.len()
        invariant
            i <= names.len(),
            all == string_views(names@),
            r@.map_values(|k: usize| k as int) == of_kind(all.take(i as int), thumb),
        decreases names.len() - i,
    {
        assert(all.take(i + 1).drop_last() =~= all.take(i as int));
        assert(all.take(i + 1).last() == names@[i as int]@);
        if is_thumb_file(names[i].as_str()) == thumb {
            let ghost before = r@.map_values(|k: usize| k as int);
            r.push(i);
            assert(r@.map_values(|k: usize| k as int) =~= before.push(i as int));
        }
        i += 1;
    }
    assert(all.take(i as int) =~= all);
    r
}

} // verus!
