//! Image files of the mail folder: full images and their thumbnails, the
//! links that images are served from, and the images that are missing.

use vstd::prelude::*;
use crate::text::{
    chars_of, contains_exec, contains_text, joined, join_chars, lines_chars, lines_of,
    occurs_at, push_all, replace_all, replaced, same_chars, split_chars, split_on, string_of, views,
    lemma_split_on_nonempty, lacks_char,
};
use crate::paths::{
    extension_of, file_name_chars, file_name_of, file_stem_of, parent_chars, parent_of,
    stem_and_extension, with_extension, with_extension_chars, with_file_name,
    with_file_name_chars, pushed, pushed_chars, lemma_last_index_of, lemma_last_index_of_append,
    last_index_of, dot_dot, dot, plain_name, same_path, components, lemma_components_parent,
    lemma_components_pushed, simple_prefix, drive_len, is_sep, rest_of,
};
use crate::text::slashed;

verus! {

/// Where the game keeps its mail images, below the local application data.
pub const IMAGES_PATH: &'static str = "Boombox Games/Fap CEO/mail";

/// The address that the images are served from.
pub const IMAGES_URL: &'static str = "https://cdn-fapceo.nutaku.net//db/art/mail/";

/// The file that lists the known image names.
pub const ALL_IMAGES_FILE: &'static str = "all_images.txt";

/// What marks the file name of a thumbnail.
pub const THUMB: &'static str = "_thumb";

/// The line printed between sections of output.
pub const LINES_SPLITTER: &'static str = "====================";

/// The image version that file names carry.
pub const VERSION: u8 = 171;

/// The character of a decimal digit.
pub open spec fn digit_char(d: nat) -> char {
    seq!['0', '1', '2', '3', '4', '5', '6', '7', '8', '9'][d as int]
}

/// The decimal text of `n`, as `to_string` writes it.
pub open spec fn decimal(n: nat) -> Seq<char>
    decreases n,
{
    if n < 10 {
        seq![digit_char(n)]
    } else {
        decimal(n / 10).push(digit_char(n % 10))
    }
}

/// The decimal text of `n`.
pub fn decimal_chars(n: u32) -> (r: Vec<char>)
    ensures
        r@ == decimal(n as nat),
    decreases n,
{
    let digits = vec!['0', '1', '2', '3', '4', '5', '6', '7', '8', '9'];
    assert(digits@ =~= seq!['0', '1', '2', '3', '4', '5', '6', '7', '8', '9']);
    if n < 10 {
        let r = vec![digits[n as usize]];
        assert(r@ =~= seq![digit_char(n as nat)]);
        r
    } else {
        let mut r = decimal_chars(n / 10);
        r.push(digits[(n % 10) as usize]);
        r
    }
}

/// The characters of `THUMB`.
pub open spec fn thumb_marker() -> Seq<char> {
    seq!['_', 't', 'h', 'u', 'm', 'b']
}

/// The path has no prefix but perhaps a drive, and has a file name.
pub open spec fn has_file_name(p: Seq<char>) -> bool {
    simple_prefix(p) && file_name_of(p) is Some
}

/// The full image of a thumbnail: the file name without `"_thumb"`.
pub open spec fn full_of(relative: Seq<char>) -> Seq<char> {
    with_file_name(relative, replaced(file_name_of(relative).unwrap(), thumb_marker(), Seq::empty()))
}

/// The file name of the thumbnail of an image: `"thumb"` inserted as a
/// `'_'`-separated part before the last one.
pub open spec fn thumb_file_name(name: Seq<char>) -> Seq<char> {
    let segments = split_on(name, '_');
    joined(segments.insert(segments.len() - 1, seq!['t', 'h', 'u', 'm', 'b']), seq!['_'])
}

/// The thumbnail of a full image.
pub open spec fn thumb_of(relative: Seq<char>) -> Seq<char> {
    with_file_name(relative, thumb_file_name(file_name_of(relative).unwrap()))
}

/// The full image that a thumbnail belongs to, e.g. `"0\\a_thumb_170.png"`
/// gives `"0\\a_170.png"`.
pub fn thumb_to_full(relative: &str) -> (r: String)
    requires
        has_file_name(relative@),
    ensures
        r@ == full_of(relative@),
        ({
            let n = replaced(file_name_of(relative@).unwrap(), thumb_marker(), Seq::empty());
            plain_name(n) && n != dot_dot() && drive_len(n) == 0 ==> has_file_name(r@) && file_name_of(r@)
                == Some(n)
        }),
{
    let p = chars_of(relative);
    let name = match file_name_chars(&p) {
        Some(n) => n,
        None => {
            assert(false);
            Vec::new()
        },
    };
    let marker = vec!['_', 't', 'h', 'u', 'm', 'b'];
    assert(marker@ =~= thumb_marker());
    let nothing: Vec<char> = Vec::new();
    assert(nothing@ =~= Seq::<char>::empty());
    let full_name = replace_all(&name, &marker, &nothing);
    let full = with_file_name_chars(&p, &full_name);
    proof {
        lemma_components_parent(p@);
        if plain_name(full_name@) && drive_len(full_name@) == 0 {
            lemma_components_pushed(parent_of(p@).unwrap(), full_name@);
        }
    }
    string_of(&full)
}

/// The thumbnail of a full image, e.g. `"0\\a_170.png"` gives
/// `"0\\a_thumb_170.png"`.
pub fn full_to_thumb(relative: &str) -> (r: String)
    requires
        has_file_name(relative@),
    ensures
        r@ == thumb_of(relative@),
        drive_len(file_name_of(relative@).unwrap()) == 0 ==> has_file_name(r@) && file_name_of(r@) == Some(
            thumb_file_name(file_name_of(relative@).unwrap()),
        ),
{
    let p = chars_of(relative);
    let name = match file_name_chars(&p) {
        Some(n) => n,
        None => {
            assert(false);
            Vec::new()
        },
    };
    let mut segments = split_chars(&name, '_');
    proof {
        lemma_split_on_nonempty(name@, '_');
    }
    let ghost before = views(segments@);
    let thumb = vec!['t', 'h', 'u', 'm', 'b'];
    assert(thumb@ =~= seq!['t', 'h', 'u', 'm', 'b']);
    let at = segments.len() - 1;
    segments.insert(at, thumb);
    assert(views(segments@) =~= before.insert(before.len() - 1, seq!['t', 'h', 'u', 'm', 'b']));
    let underscore = vec!['_'];
    assert(underscore@ =~= seq!['_']);
    let thumb_name = join_chars(&segments, &underscore);
    let r = with_file_name_chars(&p, &thumb_name);
    proof {
        lemma_components_parent(p@);
        if drive_len(name@) == 0 {
            lemma_thumb_name_plain(name@);
            lemma_components_pushed(parent_of(p@).unwrap(), thumb_name@);
        }
    }
    string_of(&r)
}

/// The parts of a relative image path: its parent folder, its stem without
/// the version, the version (the last `'_'`-separated part of the stem) and
/// the extension.
pub struct Relative {
    pub parent: String,
    pub stem: String,
    pub version: String,
    pub extension: String,
}

/// The parent part of `relative_split`.
pub open spec fn split_parent(relative: Seq<char>) -> Seq<char> {
    parent_of(relative).unwrap()
}

/// The stem part of `relative_split`: the file stem without its last
/// `'_'`-separated part.
pub open spec fn split_stem(relative: Seq<char>) -> Seq<char> {
    joined(split_on(file_stem_of(relative).unwrap(), '_').drop_last(), seq!['_'])
}

/// The version part of `relative_split`: the last `'_'`-separated part of
/// the file stem.
pub open spec fn split_version(relative: Seq<char>) -> Seq<char> {
    split_on(file_stem_of(relative).unwrap(), '_').last()
}

/// The extension part of `relative_split` (empty when there is none).
pub open spec fn split_extension(relative: Seq<char>) -> Seq<char> {
    match extension_of(relative) {
        Some(e) => e,
        None => Seq::empty(),
    }
}

proof fn lemma_parent_exists(p: Seq<char>)
    requires
        has_file_name(p),
    ensures
        parent_of(p) is Some,
{
    lemma_components_parent(p);
}

/// The parts of a relative image path, e.g. `0/amb_00_5ca_170.png` gives
/// parent `0`, stem `amb_00_5ca`, version `170` and extension `png`.
pub fn relative_split(relative: &str) -> (r: Relative)
    requires
        has_file_name(relative@),
    ensures
        r.parent@ == split_parent(relative@),
        r.stem@ == split_stem(relative@),
        r.version@ == split_version(relative@),
        r.extension@ == split_extension(relative@),
{
    let p = chars_of(relative);
    proof {
        lemma_parent_exists(p@);
    }
    let parent = match parent_chars(&p) {
        Some(q) => q,
        None => {
            assert(false);
            Vec::new()
        },
    };
    let name = match file_name_chars(&p) {
        Some(n) => n,
        None => {
            assert(false);
            Vec::new()
        },
    };
    let (stem, ext) = stem_and_extension(&name);
    let extension = match ext {
        Some(e) => e,
        None => {
            let e: Vec<char> = Vec::new();
            assert(e@ =~= Seq::<char>::empty());
            e
        },
    };
    let mut segments = split_chars(&stem, '_');
    proof {
        lemma_split_on_nonempty(stem@, '_');
    }
    let ghost all = views(segments@);
    let version = match segments.pop() {
        Some(v) => v,
        None => {
            assert(false);
            Vec::new()
        },
    };
    assert(views(segments@) =~= all.drop_last());
    let underscore = vec!['_'];
    assert(underscore@ =~= seq!['_']);
    let stem_rest = join_chars(&segments, &underscore);
    Relative {
        parent: string_of(&parent),
        stem: string_of(&stem_rest),
        version: string_of(&version),
        extension: string_of(&extension),
    }
}

/// A path written with `'/'` in place of every backslash.
pub open spec fn pretty_path(p: Seq<char>) -> Seq<char> {
    replaced(p, seq!['\\'], seq!['/'])
}

/// The path with `'/'` in place of every backslash.
pub fn prettify(pathbuf: &str) -> (r: String)
    ensures
        r@ == pretty_path(pathbuf@),
{
    let p = chars_of(pathbuf);
    let backslash = vec!['\\'];
    let slash = vec!['/'];
    assert(backslash@ =~= seq!['\\']);
    assert(slash@ =~= seq!['/']);
    let r = replace_all(&p, &backslash, &slash);
    string_of(&r)
}

/// The link of a relative image path: the images address, the path with
/// the version taken out of its file name, and `"?v="` with the version.
pub open spec fn link_of(relative: Seq<char>) -> Seq<char> {
    let renamed = with_file_name(relative, split_stem(relative));
    let path = with_extension(renamed, split_extension(relative));
    IMAGES_URL@ + pretty_path(path) + seq!['?', 'v', '='] + split_version(relative)
}

/// The link that an image is downloaded from, e.g. `0/amb_00_5ca_170.png`
/// gives `<IMAGES_URL>0/amb_00_5ca.png?v=170`.
pub fn relative_to_link(relative: &str) -> (r: String)
    requires
        has_file_name(relative@),
    ensures
        r@ == link_of(relative@),
{
    let parts = relative_split(relative);
    let p = chars_of(relative);
    let stem = chars_of(parts.stem.as_str());
    let renamed = with_file_name_chars(&p, &stem);
    let ext = chars_of(parts.extension.as_str());
    let path = with_extension_chars(&renamed, &ext);
    let pretty = prettify(string_of(&path).as_str());
    let mut link = chars_of(IMAGES_URL);
    push_all(&mut link, &chars_of(pretty.as_str()));
    let query = vec!['?', 'v', '='];
    assert(query@ =~= seq!['?', 'v', '=']);
    push_all(&mut link, &query);
    push_all(&mut link, &chars_of(parts.version.as_str()));
    string_of(&link)
}

/// The relative path of an image file: the name, `'_'`, the version and
/// `".png"`.
pub open spec fn image_file_of(name: Seq<char>) -> Seq<char> {
    name + seq!['_'] + decimal(VERSION as nat) + seq!['.', 'p', 'n', 'g']
}

/// The relative path of the image file for a name, e.g. `0/amb` gives
/// `0/amb_171.png`.
pub fn image_relative(name: &str) -> (r: String)
    ensures
        r@ == image_file_of(name@),
{
    let mut p = chars_of(name);
    p.push('_');
    push_all(&mut p, &decimal_chars(VERSION as u32));
    let png = vec!['.', 'p', 'n', 'g'];
    assert(png@ =~= seq!['.', 'p', 'n', 'g']);
    push_all(&mut p, &png);
    assert(p@ =~= image_file_of(name@));
    string_of(&p)
}

/// Every image file path of a name without a prefix but perhaps a drive
/// has a file name.
pub proof fn lemma_image_file_has_name(name: Seq<char>)
    requires
        simple_prefix(name),
    ensures
        has_file_name(image_file_of(name)),
{
    let suffix = seq!['_'] + decimal(VERSION as nat) + seq!['.', 'p', 'n', 'g'];
    assert(decimal(VERSION as nat) =~= seq!['1', '7', '1']) by {
        reveal_with_fuel(decimal, 3);
    }
    let p = name + suffix;
    assert(image_file_of(name) =~= p);
    let d = drive_len(p);
    if name.len() < 2 {
        assert(p[1] != ':') by {
            if name.len() == 1 {
                assert(p[1] == '_');
            } else {
                assert(p[1] == '1');
            }
        }
    } else {
        assert(p[0] == name[0] && p[1] == name[1]);
    }
    assert(d <= name.len());
    let x = slashed(name.skip(d));
    assert(slashed(suffix) =~= suffix);
    assert(rest_of(p) =~= x + suffix) by {
        assert(p.skip(d) =~= name.skip(d) + suffix);
    }
    lemma_last_index_of_append(x, suffix, '/');
    lemma_last_index_of(x, '/');
    let k = last_index_of(x, '/');
    let u = x + suffix;
    assert(u.skip(k + 1) =~= x.skip(k + 1) + suffix);
    assert(u.skip(k + 1).len() >= 8);
    assert(u.skip(k + 1) != dot_dot());
    assert(u.skip(k + 1) != crate::paths::dot());
    crate::paths::lemma_plain_last_segment(u);
}

/// The link of the image file for a name (see `link_of`).
pub fn image_link(name: &str) -> (r: String)
    requires
        simple_prefix(name@),
    ensures
        r@ == link_of(image_file_of(name@)),
{
    let relative = image_relative(name);
    proof {
        lemma_image_file_has_name(name@);
    }
    relative_to_link(relative.as_str())
}

/// The views of a sequence of pairs of strings.
pub open spec fn pair_views(v: Seq<(String, String)>) -> Seq<(Seq<char>, Seq<char>)> {
    v.map_values(|p: (String, String)| (p.0@, p.1@))
}

/// The views of a sequence of strings.
pub open spec fn string_views(v: Seq<String>) -> Seq<Seq<char>> {
    v.map_values(|s: String| s@)
}

/// The items whose `present` flag is false, in order.
pub open spec fn absent<T>(items: Seq<T>, present: Seq<bool>) -> Seq<T>
    decreases items.len(),
{
    if items.len() == 0 {
        Seq::empty()
    } else {
        let rest = absent(items.drop_last(), present.drop_last());
        if present.last() {
            rest
        } else {
            rest.push(items.last())
        }
    }
}

/// The image file of a listed name and its path in the mail folder.
pub open spec fn candidate_of(mail_folder: Seq<char>, line: Seq<char>) -> (Seq<char>, Seq<char>) {
    (image_file_of(line), pushed(mail_folder, image_file_of(line)))
}

/// For every line of a list of names: the image file of the name and its
/// path in the mail folder.
pub fn image_candidates(list: &str, mail_folder: &str) -> (r: Vec<(String, String)>)
    requires
        simple_prefix(mail_folder@),
    ensures
        pair_views(r@) == lines_of(list@).map_values(|l: Seq<char>| candidate_of(mail_folder@, l)),
{
    let lines = lines_chars(&chars_of(list));
    let folder = chars_of(mail_folder);
    let ghost target = lines_of(list@).map_values(|l: Seq<char>| candidate_of(mail_folder@, l));
    let mut r: Vec<(String, String)> = Vec::new();
    let mut i: usize = 0;
    while i < lines.len()
        invariant
            i <= lines.len(),
            views(lines@) == lines_of(list@),
            folder@ == mail_folder@,
            target == lines_of(list@).map_values(|l: Seq<char>| candidate_of(mail_folder@, l)),
            pair_views(r@) == target.take(i as int),
        decreases lines.len() - i,
    {
        let relative = image_relative(string_of(&lines[i]).as_str());
        let path = pushed_chars(&folder, &chars_of(relative.as_str()));
        assert(views(lines@)[i as int] == lines@[i as int]@);
        let path_text = string_of(&path);
        let ghost entry = (relative@, path_text@);
        assert(entry == target[i as int]);
        let ghost before = pair_views(r@);
        r.push((relative, path_text));
        assert(pair_views(r@) =~= before.push(entry));
        i += 1;
        assert(pair_views(r@) =~= target.take(i as int));
    }
    assert(target.take(i as int) =~= target);
    r
}

/// The pairs whose `present` flag is false, in order.
fn keep_absent_pairs(items: &Vec<(String, String)>, present: &Vec<bool>) -> (r: Vec<(String, String)>)
    requires
        items.len() == present.len(),
    ensures
        pair_views(r@) == absent(pair_views(items@), present@),
{
    let ghost all = pair_views(items@);
    let mut r: Vec<(String, String)> = Vec::new();
    let mut i: usize = 0;
    assert(all.take(0) =~= Seq::<(Seq<char>, Seq<char>)>::empty());
    assert(pair_views(r@) =~= absent(all.take(0), present@.take(0)));
    while i < items.len()
        invariant
            i <= items.len(),
            items.len() == present.len(),
            all == pair_views(items@),
            pair_views(r@) == absent(all.take(i as int), present@.take(i as int)),
        decreases items.len() - i,
    {
        assert(all.take(i + 1).drop_last() =~= all.take(i as int));
        assert(present@.take(i + 1).drop_last() =~= present@.take(i as int));
        if !present[i] {
            let a = items[i].0.clone();
            let b = items[i].1.clone();
            r.push((a, b));
        }
        i += 1;
        assert(pair_views(r@) =~= absent(all.take(i as int), present@.take(i as int)));
    }
    assert(all.take(i as int) =~= all);
    assert(present@.take(i as int) =~= present@);
    r
}

/// The static images that are missing: of the candidates for the lines of
/// `image_list` (see `image_candidates`), those whose `present` flag is
/// false, as pairs of image file and path in the mail folder.
pub fn missing_static_images(image_list: &str, mail_folder: &str, present: &Vec<bool>) -> (r: Vec<(String, String)>)
    requires
        simple_prefix(mail_folder@),
        present.len() == lines_of(image_list@).len(),
    ensures
        pair_views(r@) == absent(
            lines_of(image_list@).map_values(|l: Seq<char>| candidate_of(mail_folder@, l)),
            present@,
        ),
{
    let candidates = image_candidates(image_list, mail_folder);
    assert(candidates@.len() == pair_views(candidates@).len());
    keep_absent_pairs(&candidates, present)
}

/// The image files of the names in the list file whose `present` flag is
/// false: the flags are those of the candidates of `image_candidates`.
pub fn missing_all_images_file(content: &str, present: &Vec<bool>) -> (r: Vec<String>)
    requires
        present.len() == lines_of(content@).len(),
    ensures
        string_views(r@) == absent(
            lines_of(content@).map_values(|l: Seq<char>| image_file_of(l)),
            present@,
        ),
{
    let lines = lines_chars(&chars_of(content));
    let ghost all = lines_of(content@).map_values(|l: Seq<char>| image_file_of(l));
    let mut r: Vec<String> = Vec::new();
    let mut i: usize = 0;
    assert(string_views(r@) =~= absent(all.take(0), present@.take(0)));
    while i < lines.len()
        invariant
            i <= lines.len(),
            lines.len() == present.len(),
            views(lines@) == lines_of(content@),
            all == lines_of(content@).map_values(|l: Seq<char>| image_file_of(l)),
            string_views(r@) == absent(all.take(i as int), present@.take(i as int)),
        decreases lines.len() - i,
    {
        assert(all.take(i + 1).drop_last() =~= all.take(i as int));
        assert(present@.take(i + 1).drop_last() =~= present@.take(i as int));
        assert(views(lines@)[i as int] == lines@[i as int]@);
        if !present[i] {
            r.push(image_relative(string_of(&lines[i]).as_str()));
        }
        i += 1;
        assert(string_views(r@) =~= absent(all.take(i as int), present@.take(i as int)));
    }
    assert(all.take(i as int) =~= all);
    assert(present@.take(i as int) =~= present@);
    r
}

/// One of `entries` (file names in a folder) has the same stem, without
/// version, as `path`: the image is there, in some version.
pub open spec fn same_image_in(path: Seq<char>, entries: Seq<Seq<char>>) -> bool {
    exists|i: int| 0 <= i < entries.len() && split_stem(#[trigger] entries[i]) == split_stem(path)
}

/// Whether the image at `path` is in its folder, in any version, given the
/// names of the files of that folder.
pub fn image_exists(path: &str, entries: &Vec<String>) -> (r: bool)
    requires
        has_file_name(path@),
        forall|i: int| 0 <= i < entries.len() ==> has_file_name(#[trigger] entries@[i]@),
    ensures
        r == same_image_in(path@, string_views(entries@)),
{
    let main = relative_split(path);
    let main_stem = chars_of(main.stem.as_str());
    let mut i: usize = 0;
    while i < entries.len()
        invariant
            i <= entries.len(),
            main_stem@ == split_stem(path@),
            forall|j: int| 0 <= j < entries.len() ==> has_file_name(#[trigger] entries@[j]@),
            forall|j: int| 0 <= j < i ==> split_stem(#[trigger] string_views(entries@)[j]) != split_stem(path@),
        decreases entries.len() - i,
    {
        assert(string_views(entries@)[i as int] == entries@[i as int]@);
        let other = relative_split(entries[i].as_str());
        if same_chars(&chars_of(other.stem.as_str()), &main_stem) {
            return true;
        }
        i += 1;
    }
    false
}

/// A relative path is that of a thumbnail: its file name holds `"_thumb"`.
pub open spec fn is_thumb_path(relative: Seq<char>) -> bool {
    contains_text(file_name_of(relative).unwrap(), thumb_marker())
}

/// The other image of a pair: the full image of a thumbnail, the thumbnail
/// of a full image.
pub open spec fn counterpart_of(relative: Seq<char>) -> Seq<char> {
    if is_thumb_path(relative) {
        full_of(relative)
    } else {
        thumb_of(relative)
    }
}

/// Whether a relative path is that of a thumbnail, and the other image of
/// its pair.
pub fn counterpart(relative: &str) -> (r: (bool, String))
    requires
        has_file_name(relative@),
    ensures
        r.0 == is_thumb_path(relative@),
        r.1@ == counterpart_of(relative@),
{
    let p = chars_of(relative);
    let name = match file_name_chars(&p) {
        Some(n) => n,
        None => {
            assert(false);
            Vec::new()
        },
    };
    let marker = vec!['_', 't', 'h', 'u', 'm', 'b'];
    assert(marker@ =~= thumb_marker());
    if contains_exec(&name, &marker) {
        (true, thumb_to_full(relative))
    } else {
        (false, full_to_thumb(relative))
    }
}

/// The full images missing for the thumbnails among `relatives`, each with
/// the thumbnail, given whether each counterpart is present.
pub open spec fn missing_fulls(relatives: Seq<Seq<char>>, present: Seq<bool>) -> Seq<(Seq<char>, Seq<char>)>
    decreases relatives.len(),
{
    if relatives.len() == 0 {
        Seq::empty()
    } else {
        let rest = missing_fulls(relatives.drop_last(), present.drop_last());
        let r = relatives.last();
        if is_thumb_path(r) && !present.last() {
            rest.push((full_of(r), r))
        } else {
            rest
        }
    }
}

/// The thumbnails missing for the full images among `relatives`, each with
/// the full image, given whether each counterpart is present.
pub open spec fn missing_thumbs(relatives: Seq<Seq<char>>, present: Seq<bool>) -> Seq<(Seq<char>, Seq<char>)>
    decreases relatives.len(),
{
    if relatives.len() == 0 {
        Seq::empty()
    } else {
        let rest = missing_thumbs(relatives.drop_last(), present.drop_last());
        let r = relatives.last();
        if !is_thumb_path(r) && !present.last() {
            rest.push((thumb_of(r), r))
        } else {
            rest
        }
    }
}

/// The missing full images and the missing thumbnails of the image files at
/// `relatives` (relative to the mail folder), given for each whether the
/// other image of its pair (see `counterpart`) is present.
pub fn missing_images(relatives: &Vec<String>, counterpart_present: &Vec<bool>) -> (r: (Vec<(String, String)>, Vec<(String, String)>))
    requires
        relatives.len() == counterpart_present.len(),
        forall|i: int| 0 <= i < relatives.len() ==> has_file_name(#[trigger] relatives@[i]@),
    ensures
        pair_views(r.0@) == missing_fulls(string_views(relatives@), counterpart_present@),
        pair_views(r.1@) == missing_thumbs(string_views(relatives@), counterpart_present@),
{
    let ghost rels = string_views(relatives@);
    let mut fulls: Vec<(String, String)> = Vec::new();
    let mut thumbs: Vec<(String, String)> = Vec::new();
    let mut i: usize = 0;
    assert(rels.take(0) =~= Seq::<Seq<char>>::empty());
    assert(pair_views(fulls@) =~= missing_fulls(rels.take(0), counterpart_present@.take(0)));
    assert(pair_views(thumbs@) =~= missing_thumbs(rels.take(0), counterpart_present@.take(0)));
    while i < relatives.len()
        invariant
            i <= relatives.len(),
            relatives.len() == counterpart_present.len(),
            rels == string_views(relatives@),
            forall|j: int| 0 <= j < relatives.len() ==> has_file_name(#[trigger] relatives@[j]@),
            pair_views(fulls@) == missing_fulls(rels.take(i as int), counterpart_present@.take(i as int)),
            pair_views(thumbs@) == missing_thumbs(rels.take(i as int), counterpart_present@.take(i as int)),
        decreases relatives.len() - i,
    {
        assert(rels.take(i + 1).drop_last() =~= rels.take(i as int));
        assert(counterpart_present@.take(i + 1).drop_last() =~= counterpart_present@.take(i as int));
        assert(rels[i as int] == relatives@[i as int]@);
        let (is_thumb, other) = counterpart(relatives[i].as_str());
        if !counterpart_present[i] {
            let ghost entry = (other@, relatives@[i as int]@);
            if is_thumb {
                let ghost before = pair_views(fulls@);
                fulls.push((other, relatives[i].clone()));
                assert(pair_views(fulls@) =~= before.push(entry));
            } else {
                let ghost before = pair_views(thumbs@);
                thumbs.push((other, relatives[i].clone()));
                assert(pair_views(thumbs@) =~= before.push(entry));
            }
        }
        i += 1;
    }
    assert(rels.take(i as int) =~= rels);
    assert(counterpart_present@.take(i as int) =~= counterpart_present@);
    (fulls, thumbs)
}

/// Law: the missing images of a list made of two lists are those of the
/// first followed by those of the second (with their flags): each
/// thumbnail or full image adds its own pair, in order, and nothing else.
pub proof fn law_missing_images_append(
    a: Seq<Seq<char>>,
    pa: Seq<bool>,
    b: Seq<Seq<char>>,
    pb: Seq<bool>,
)
    requires
        a.len() == pa.len(),
        b.len() == pb.len(),
    ensures
        missing_fulls(a + b, pa + pb) == missing_fulls(a, pa) + missing_fulls(b, pb),
        missing_thumbs(a + b, pa + pb) == missing_thumbs(a, pa) + missing_thumbs(b, pb),
    decreases b.len(),
{
    if b.len() == 0 {
        assert(a + b =~= a);
        assert(pa + pb =~= pa);
        assert(missing_fulls(b, pb) =~= Seq::<(Seq<char>, Seq<char>)>::empty());
        assert(missing_thumbs(b, pb) =~= Seq::<(Seq<char>, Seq<char>)>::empty());
        assert(missing_fulls(a, pa) + Seq::<(Seq<char>, Seq<char>)>::empty() =~= missing_fulls(a, pa));
        assert(missing_thumbs(a, pa) + Seq::<(Seq<char>, Seq<char>)>::empty() =~= missing_thumbs(a, pa));
    } else {
        law_missing_images_append(a, pa, b.drop_last(), pb.drop_last());
        assert((a + b).drop_last() =~= a + b.drop_last());
        assert((pa + pb).drop_last() =~= pa + pb.drop_last());
        assert((a + b).last() == b.last());
        assert((pa + pb).last() == pb.last());
        assert((missing_fulls(a, pa) + missing_fulls(b.drop_last(), pb.drop_last())).push((full_of(b.last()), b.last()))
            =~= missing_fulls(a, pa) + missing_fulls(b.drop_last(), pb.drop_last()).push((full_of(b.last()), b.last())));
        assert((missing_thumbs(a, pa) + missing_thumbs(b.drop_last(), pb.drop_last())).push((thumb_of(b.last()), b.last()))
            =~= missing_thumbs(a, pa) + missing_thumbs(b.drop_last(), pb.drop_last()).push((thumb_of(b.last()), b.last())));
    }
}

/// Law: a single image whose counterpart is absent is missing its full
/// image, paired with it, when its file name holds `"_thumb"`, and its
/// thumbnail otherwise; one whose counterpart is present misses nothing.
pub proof fn law_missing_images_of_one(r: Seq<char>, present: bool)
    ensures
        present ==> missing_fulls(seq![r], seq![present]).len() == 0 && missing_thumbs(seq![r], seq![present]).len() == 0,
        !present && contains_text(file_name_of(r).unwrap(), seq!['_', 't', 'h', 'u', 'm', 'b']) ==> missing_fulls(
            seq![r],
            seq![present],
        ) == seq![(full_of(r), r)] && missing_thumbs(seq![r], seq![present]).len() == 0,
        !present && !contains_text(file_name_of(r).unwrap(), seq!['_', 't', 'h', 'u', 'm', 'b']) ==> missing_thumbs(
            seq![r],
            seq![present],
        ) == seq![(thumb_of(r), r)] && missing_fulls(seq![r], seq![present]).len() == 0,
{
    let rs = seq![r];
    let ps = seq![present];
    assert(rs.drop_last() =~= Seq::<Seq<char>>::empty());
    assert(ps.drop_last() =~= Seq::<bool>::empty());
    assert(thumb_marker() =~= seq!['_', 't', 'h', 'u', 'm', 'b']);
    assert(missing_fulls(rs.drop_last(), ps.drop_last()) =~= Seq::<(Seq<char>, Seq<char>)>::empty());
    assert(missing_thumbs(rs.drop_last(), ps.drop_last()) =~= Seq::<(Seq<char>, Seq<char>)>::empty());
    assert(Seq::<(Seq<char>, Seq<char>)>::empty().push((full_of(r), r)) =~= seq![(full_of(r), r)]);
    assert(Seq::<(Seq<char>, Seq<char>)>::empty().push((thumb_of(r), r)) =~= seq![(thumb_of(r), r)]);
}

/// A file name `s + "_" + v + "." + e`, where `v` holds neither `'_'` nor
/// `'.'` and `e` holds no `'.'`, splits into `s`, the version `v` and the
/// extension `e`.
proof fn lemma_versioned_name(p: Seq<char>, s: Seq<char>, v: Seq<char>, e: Seq<char>)
    requires
        file_name_of(p) == Some(s + seq!['_'] + v + seq!['.'] + e),
        lacks_char(v, '.'),
        lacks_char(v, '_'),
        lacks_char(e, '.'),
    ensures
        split_stem(p) == s,
        split_version(p) == v,
        split_extension(p) == e,
{
    let n = s + seq!['_'] + v + seq!['.'] + e;
    let idx = (s.len() + 1 + v.len()) as int;
    assert(n[idx] == '.');
    assert forall|j: int| idx < j < n.len() implies n[j] != '.' by {
        assert(n[j] == e[j - idx - 1]);
    }
    crate::paths::lemma_last_index_unique(n, '.', idx);
    assert(n[s.len() as int] == '_');
    assert(n != dot_dot()) by {
        if n == dot_dot() {
            assert(n[s.len() as int] == '.');
        }
    }
    let stem = n.take(idx);
    assert(stem =~= s + seq!['_'] + v);
    assert(n.skip(idx + 1) =~= e);
    crate::text::lemma_split_on_append(s, '_', v);
    crate::text::lemma_joined_split(s, '_');
    assert(split_on(stem, '_').drop_last() =~= split_on(s, '_'));
}

/// Law: an image file `s + "_" + v + "." + e` is found in a folder that
/// holds a file `t + "_" + w + "." + x` (versions `v`, `w` without `'_'`
/// or `'.'`, extensions without `'.'`) exactly when the names before the
/// versions are the same, `s == t`: a file whose name only starts with `s`
/// (such as the thumbnail of the image) does not count.
pub proof fn law_same_image_by_name(
    path: Seq<char>,
    entry: Seq<char>,
    s: Seq<char>,
    v: Seq<char>,
    e: Seq<char>,
    t: Seq<char>,
    w: Seq<char>,
    x: Seq<char>,
)
    requires
        file_name_of(path) == Some(s + seq!['_'] + v + seq!['.'] + e),
        file_name_of(entry) == Some(t + seq!['_'] + w + seq!['.'] + x),
        lacks_char(v, '.'),
        lacks_char(v, '_'),
        lacks_char(e, '.'),
        lacks_char(w, '.'),
        lacks_char(w, '_'),
        lacks_char(x, '.'),
    ensures
        same_image_in(path, seq![entry]) == (s == t),
{
    lemma_versioned_name(path, s, v, e);
    lemma_versioned_name(entry, t, w, x);
    assert(seq![entry][0] == entry);
}

/// Law: an image is found among the files of two lists exactly when it is
/// found among those of one of them.
pub proof fn law_same_image_in_append(path: Seq<char>, a: Seq<Seq<char>>, b: Seq<Seq<char>>)
    ensures
        same_image_in(path, a + b) == (same_image_in(path, a) || same_image_in(path, b)),
{
    if same_image_in(path, a + b) {
        let i = choose|i: int| 0 <= i < (a + b).len() && split_stem(#[trigger] (a + b)[i]) == split_stem(path);
        if i < a.len() {
            assert((a + b)[i] == a[i]);
        } else {
            assert((a + b)[i] == b[i - a.len()]);
        }
    }
    if same_image_in(path, a) {
        let i = choose|i: int| 0 <= i < a.len() && split_stem(#[trigger] a[i]) == split_stem(path);
        assert((a + b)[i] == a[i]);
    }
    if same_image_in(path, b) {
        let i = choose|i: int| 0 <= i < b.len() && split_stem(#[trigger] b[i]) == split_stem(path);
        assert((a + b)[i + a.len()] == b[i]);
    }
}

/// A folder name followed by `'/'` and a text with neither separator: the
/// text is the file name and the folder the parent.
proof fn lemma_folder_and_name(f: Seq<char>, n: Seq<char>)
    requires
        plain_name(f),
        drive_len(f) == 0,
        plain_name(n),
        n != dot_dot(),
    ensures
        file_name_of(f + seq!['/'] + n) == Some(n),
        parent_of(f + seq!['/'] + n) == Some(f),
{
    let p = f + seq!['/'] + n;
    if f.len() >= 2 {
        assert(p[0] == f[0] && p[1] == f[1]);
    } else {
        assert(p[1] == '/');
    }
    assert(drive_len(p) == 0);
    assert forall|j: int| 0 <= j < p.len() implies p[j] != '\\' && (p[j] == '/' ==> j == f.len()) by {
        if j < f.len() {
            assert(p[j] == f[j]);
            assert(!is_sep(f[j]));
        } else if j > f.len() {
            assert(p[j] == n[j - f.len() - 1]);
            assert(!is_sep(n[j - f.len() - 1]));
        }
    }
    assert(p.skip(0) =~= p);
    assert(rest_of(p) =~= p);
    crate::paths::lemma_last_index_unique(p, '/', f.len() as int);
    assert(p.skip(f.len() as int + 1) =~= n);
    crate::paths::lemma_plain_last_segment(p);
    assert(!crate::paths::has_root(p));
    assert(!crate::paths::starts_cur_dir(p)) by {
        if p[0] == '.' && (p.len() == 1 || p[1] == '/') {
            assert(f.len() == 1);
            assert(f =~= crate::paths::dot());
        }
    }
    assert(crate::paths::trim_back(p) == p);
    assert(p.take(f.len() as int) =~= f);
    assert forall|j: int| 0 <= j < f.len() implies f[j] != '/' by {
        assert(!is_sep(f[j]));
    }
    crate::paths::lemma_last_index_unique(f, '/', -1);
    assert(f.skip(0) =~= f);
    assert(crate::paths::trim_back(f) == f);
    assert(p.take(0) + f =~= f);
}

/// A folder name with a plain name pushed onto it and then the extension
/// `e`: `f\s.e`.
proof fn lemma_pushed_with_extension(f: Seq<char>, s: Seq<char>, e: Seq<char>)
    requires
        plain_name(f),
        drive_len(f) == 0,
        plain_name(s),
        drive_len(s) == 0,
        lacks_char(s, '.'),
        e.len() > 0,
    ensures
        with_extension(pushed(f, s), e) == f + seq!['\\'] + s + seq!['.'] + e,
{
    let renamed = pushed(f, s);
    assert(renamed == f + seq!['\\'] + s);
    assert(s != dot_dot()) by {
        if s == dot_dot() {
            assert(s[0] == '.');
        }
    }
    lemma_components_pushed(f, s);
    crate::paths::lemma_last_index_unique(s, '.', -1);
    assert(file_stem_of(renamed) == Some(s));
    if f.len() >= 2 {
        assert(renamed[0] == f[0] && renamed[1] == f[1]);
    } else {
        assert(renamed[1] == '\\');
    }
    assert(drive_len(renamed) == 0);
    let u = rest_of(renamed);
    assert(renamed.skip(0) =~= renamed);
    assert(u =~= f + seq!['/'] + s) by {
        assert forall|j: int| 0 <= j < f.len() implies f[j] != '\\' by {
            assert(!is_sep(f[j]));
        }
        assert forall|j: int| 0 <= j < s.len() implies s[j] != '\\' by {
            assert(!is_sep(s[j]));
        }
    }
    assert forall|j: int| f.len() < j < u.len() implies u[j] != '/' by {
        assert(u[j] == s[j - f.len() - 1]);
        assert(!is_sep(s[j - f.len() - 1]));
    }
    crate::paths::lemma_last_index_unique(u, '/', f.len() as int);
    assert(u.skip(f.len() as int + 1) =~= s);
    assert(!crate::paths::has_root(u));
    assert(!crate::paths::starts_cur_dir(u)) by {
        if u[0] == '.' && (u.len() == 1 || u[1] == '/') {
            assert(f.len() == 1);
            assert(f =~= crate::paths::dot());
        }
    }
    assert(u.skip(0) =~= u);
    assert(crate::paths::trim_back(u) == u);
    assert(crate::paths::name_offset(u) == f.len() + 1);
    assert(renamed.take(f.len() as int + 1) + s =~= renamed);
}

/// Law: the link of `f/s_v.e`, for a folder `f` and a name `s` that are
/// plain (`s` without `'.'`), a version `v` without `'_'` or `'.'` and an
/// extension `e` without `'.'`, is the images address, `f/s.e`, `"?v="`
/// and `v`: the name keeps every character before the version (a
/// thumbnail's link keeps its `"_thumb"`).
pub proof fn law_link_of_versioned_file(f: Seq<char>, s: Seq<char>, v: Seq<char>, e: Seq<char>)
    requires
        plain_name(f),
        f != dot_dot(),
        drive_len(f) == 0,
        plain_name(s),
        drive_len(s) == 0,
        lacks_char(s, '.'),
        lacks_char(v, '.'),
        lacks_char(v, '_'),
        lacks_char(v, '/'),
        lacks_char(v, '\\'),
        e.len() > 0,
        lacks_char(e, '.'),
        lacks_char(e, '/'),
        lacks_char(e, '\\'),
    ensures
        link_of(f + seq!['/'] + s + seq!['_'] + v + seq!['.'] + e) == IMAGES_URL@ + f + seq!['/'] + s
            + seq!['.'] + e + seq!['?', 'v', '='] + v,
{
    let n = s + seq!['_'] + v + seq!['.'] + e;
    let p = f + seq!['/'] + n;
    assert(plain_name(n) && n != dot_dot()) by {
        assert forall|k: int| 0 <= k < n.len() implies !is_sep(n[k]) by {
            if k < s.len() {
                assert(n[k] == s[k]);
            } else if s.len() < k < s.len() + 1 + v.len() {
                assert(n[k] == v[k - s.len() - 1]);
            } else if k > s.len() + 1 + v.len() {
                assert(n[k] == e[k - s.len() - 2 - v.len()]);
            }
        }
        assert(n[s.len() as int] == '_');
        if n == crate::paths::dot() || n == dot_dot() {
            assert(n[s.len() as int] == '.');
        }
    }
    lemma_folder_and_name(f, n);
    lemma_versioned_name(p, s, v, e);
    assert(with_file_name(p, s) == pushed(f, s));
    lemma_pushed_with_extension(f, s, e);
    let moved = f + seq!['\\'] + s + seq!['.'] + e;
    crate::text::lemma_replaced_backslash(moved);
    assert(slashed(moved) =~= f + seq!['/'] + s + seq!['.'] + e) by {
        assert forall|j: int| 0 <= j < f.len() implies f[j] != '\\' by {
            assert(!is_sep(f[j]));
        }
        assert forall|j: int| 0 <= j < s.len() implies s[j] != '\\' by {
            assert(!is_sep(s[j]));
        }
    }
    assert(pretty_path(moved) == slashed(moved));
    assert(with_extension(with_file_name(p, split_stem(p)), split_extension(p)) == moved);
    assert(link_of(p) == IMAGES_URL@ + slashed(moved) + seq!['?', 'v', '='] + v);
    assert(p =~= f + seq!['/'] + s + seq!['_'] + v + seq!['.'] + e);
    assert(IMAGES_URL@ + slashed(moved) + seq!['?', 'v', '='] + v =~= IMAGES_URL@ + f + seq!['/'] + s
        + seq!['.'] + e + seq!['?', 'v', '='] + v);
}

/// The link of an image that is never downloaded: it holds `"/0.png"`.
pub open spec fn skipped_link(url: Seq<char>) -> bool {
    contains_text(url, seq!['/', '0', '.', 'p', 'n', 'g'])
}

/// Whether the image at `url` is never downloaded (its link holds
/// `"/0.png"`).
pub fn skips_download(url: &str) -> (r: bool)
    ensures
        r == skipped_link(url@),
{
    let zero = vec!['/', '0', '.', 'p', 'n', 'g'];
    assert(zero@ =~= seq!['/', '0', '.', 'p', 'n', 'g']);
    contains_exec(&chars_of(url), &zero)
}

/// `c` occurs in `s`.
pub open spec fn has_char(s: Seq<char>, c: char) -> bool {
    exists|i: int| 0 <= i < s.len() && s[i] == c
}

/// The characters of `"thumb"`.
pub open spec fn thumb_word() -> Seq<char> {
    seq!['t', 'h', 'u', 'm', 'b']
}

/// A file name with a `'_'` is `a + "_" + l`, and its thumbnail's file
/// name is `a + "_thumb" + "_" + l`.
proof fn lemma_thumb_name_shape(name: Seq<char>) -> (r: (Seq<char>, Seq<char>))
    requires
        has_char(name, '_'),
    ensures
        name == r.0 + seq!['_'] + r.1,
        thumb_file_name(name) == r.0 + thumb_marker() + (seq!['_'] + r.1),
{
    let i0 = choose|i: int| 0 <= i < name.len() && name[i] == '_';
    crate::text::lemma_split_on_two(name, '_', i0);
    crate::text::lemma_joined_split(name, '_');
    let segs = split_on(name, '_');
    let th = seq!['t', 'h', 'u', 'm', 'b'];
    let a = joined(segs.drop_last(), seq!['_']);
    let l = segs.last();
    assert(segs.insert(segs.len() - 1, th) =~= segs.drop_last().push(th).push(l));
    crate::text::lemma_joined_push(segs.drop_last(), seq!['_'], th);
    crate::text::lemma_joined_push(segs.drop_last().push(th), seq!['_'], l);
    assert(thumb_file_name(name) =~= a + thumb_marker() + (seq!['_'] + l));
    (a, l)
}

/// Taking `"_thumb"` out of `a + "_thumb" + "_" + l` gives `a + "_" + l`,
/// when that text holds no `"_thumb"`.
#[verifier::rlimit(30)]
proof fn lemma_remove_inserted_marker(name: Seq<char>, a: Seq<char>, l: Seq<char>)
    requires
        name == a + seq!['_'] + l,
        !contains_text(name, thumb_marker()),
    ensures
        replaced(a + thumb_marker() + (seq!['_'] + l), thumb_marker(), Seq::empty()) == name,
{
    let tail = seq!['_'] + l;
    let s = a + (thumb_marker() + tail);
    assert(s =~= a + thumb_marker() + tail);
    assert forall|i: int| 0 <= i < a.len() implies !occurs_at(s, thumb_marker(), i) by {
        if occurs_at(s, thumb_marker(), i) {
            if i + 6 <= a.len() {
                assert(name.subrange(i, i + 6) =~= s.subrange(i, i + 6));
                assert(occurs_at(name, thumb_marker(), i));
            } else {
                let m = a.len() - i;
                assert(s.subrange(i, i + 6)[m] == s[a.len() as int]);
                assert(s[a.len() as int] == '_');
            }
        }
    }
    crate::text::lemma_replaced_prefix(a, thumb_marker() + tail, thumb_marker(), Seq::empty());
    assert((thumb_marker() + tail).skip(6) =~= tail);
    assert((thumb_marker() + tail).subrange(0, 6) =~= thumb_marker());
    assert(replaced(thumb_marker() + tail, thumb_marker(), Seq::empty()) == Seq::<char>::empty()
        + replaced(tail, thumb_marker(), Seq::empty()));
    assert(crate::text::lacks_text(tail, thumb_marker())) by {
        assert forall|i: int| !occurs_at(tail, thumb_marker(), i) by {
            if occurs_at(tail, thumb_marker(), i) {
                let off = a.len() as int;
                assert(name.subrange(off + i, off + i + 6) =~= tail.subrange(i, i + 6));
                assert(occurs_at(name, thumb_marker(), off + i));
            }
        }
    }
    crate::text::lemma_replaced_none(tail, thumb_marker(), Seq::empty());
    assert(Seq::<char>::empty() + tail =~= tail);
    assert(a + tail =~= name);
}

/// Equal lists with the same last element were equal before it.
proof fn lemma_push_cancel(a: Seq<Seq<char>>, b: Seq<Seq<char>>, x: Seq<char>)
    requires
        a.push(x) == b.push(x),
    ensures
        a == b,
{
    assert(a.push(x).drop_last() =~= a);
    assert(b.push(x).drop_last() =~= b);
}

/// A text whose characters all come from a file name is a plain name, when
/// it is longer than one character.
proof fn lemma_plain_from(t: Seq<char>)
    requires
        t.len() >= 2,
        forall|j: int| 0 <= j < t.len() ==> !is_sep(t[j]),
    ensures
        plain_name(t),
{
    if t == dot() {
        assert(t.len() == 1);
    }
}

/// The thumbnail name `a + "_thumb_" + l` of a name `a + "_" + l` without a
/// drive prefix has none either.
proof fn lemma_thumb_name_no_drive(name: Seq<char>, a: Seq<char>, l: Seq<char>)
    requires
        name == a + seq!['_'] + l,
        drive_len(name) == 0,
    ensures
        drive_len(a + thumb_marker() + (seq!['_'] + l)) == 0,
{
    let t = a + thumb_marker() + (seq!['_'] + l);
    if a.len() >= 2 {
        assert(t[0] == name[0] && t[1] == name[1]);
    } else if a.len() == 1 {
        assert(t[1] == '_');
    } else {
        assert(t[0] == '_');
    }
}

/// The thumbnail name of a plain name without a drive prefix is a plain
/// name without one, and not `".."`.
proof fn lemma_thumb_name_plain(name: Seq<char>)
    requires
        plain_name(name),
        drive_len(name) == 0,
    ensures
        plain_name(thumb_file_name(name)),
        drive_len(thumb_file_name(name)) == 0,
        thumb_file_name(name) != dot_dot(),
{
    let t = thumb_file_name(name);
    if has_char(name, '_') {
        let (a, l) = lemma_thumb_name_shape(name);
        assert forall|j: int| 0 <= j < t.len() implies !is_sep(t[j]) by {
            if j < a.len() {
                assert(name[j] == t[j]);
            } else if j >= a.len() + 6 {
                assert(name[j - 6] == t[j]);
            }
        }
        lemma_thumb_name_no_drive(name, a, l);
    } else {
        assert(lacks_char(name, '_'));
        crate::text::lemma_split_on_single(name, '_');
        let th = thumb_word();
        assert(seq![name].insert(0, th) =~= seq![th].push(name));
        crate::text::lemma_joined_push(seq![th], seq!['_'], name);
        assert(t =~= th + seq!['_'] + name);
        assert forall|j: int| 0 <= j < t.len() implies !is_sep(t[j]) by {
            if j >= 6 {
                assert(name[j - 6] == t[j]);
            }
        }
        assert(t[1] == 'h');
    }
    assert(t.len() > 2);
    if t == dot() {
        assert(t.len() == 1);
    }
}

/// Law: the full image of the thumbnail of a full image is that image (as
/// `Path` compares paths), and that thumbnail is recognised as a thumbnail;
/// for a file name that holds a `'_'` and no `"_thumb"`, and does not start
/// like a drive (as `"c:"` does: pushed, such a name replaces the path).
pub proof fn law_full_of_thumb(p: Seq<char>)
    requires
        has_file_name(p),
        has_char(file_name_of(p).unwrap(), '_'),
        !contains_text(file_name_of(p).unwrap(), thumb_marker()),
        drive_len(file_name_of(p).unwrap()) == 0,
    ensures
        same_path(full_of(thumb_of(p)), p),
        is_thumb_path(thumb_of(p)),
        same_path(counterpart_of(thumb_of(p)), p),
{
    let name = file_name_of(p).unwrap();
    lemma_components_parent(p);
    let q = parent_of(p).unwrap();
    let (a, l) = lemma_thumb_name_shape(name);
    let t = thumb_file_name(name);
    assert forall|j: int| 0 <= j < t.len() implies !is_sep(t[j]) by {
        if j < a.len() {
            assert(name[j] == t[j]);
        } else if j >= a.len() + 6 {
            assert(name[j - 6] == t[j]);
        }
    }
    lemma_plain_from(t);
    lemma_thumb_name_no_drive(name, a, l);
    assert(t != dot_dot()) by {
        if t == dot_dot() {
            assert(t.len() == 2);
        }
    }
    let x = thumb_of(p);
    assert(x == pushed(q, t));
    lemma_components_pushed(q, t);
    lemma_components_parent(x);
    lemma_push_cancel(components(parent_of(x).unwrap()), components(q), t);
    lemma_remove_inserted_marker(name, a, l);
    let full = full_of(x);
    assert(full == pushed(parent_of(x).unwrap(), name));
    lemma_components_pushed(parent_of(x).unwrap(), name);
    assert(occurs_at(t, thumb_marker(), a.len() as int)) by {
        assert(t.subrange(a.len() as int, a.len() as int + 6) =~= thumb_marker());
    }
}

/// A name with `"_thumb"` between two parts, the first without `"thumb"`
/// and the last without `"thumb"` and `'_'`, loses just that marker.
proof fn lemma_joined_parts_lack_marker(x: Seq<char>, l: Seq<char>)
    requires
        !contains_text(x, thumb_word()),
        !contains_text(l, thumb_word()),
    ensures
        !contains_text(x + seq!['_'] + l, thumb_marker()),
{
    let s = x + seq!['_'] + l;
    if contains_text(s, thumb_marker()) {
        let i = choose|i: int| occurs_at(s, thumb_marker(), i);
        assert(s.subrange(i, i + 6)[0] == '_');
        if i + 6 <= x.len() {
            assert(x.subrange(i + 1, i + 6) =~= s.subrange(i + 1, i + 6));
            assert(s.subrange(i + 1, i + 6) =~= thumb_word()) by {
                assert forall|j: int| 0 <= j < 5 implies s.subrange(i + 1, i + 6)[j] == thumb_word()[j] by {
                    assert(s.subrange(i + 1, i + 6)[j] == s.subrange(i, i + 6)[j + 1]);
                }
            }
            assert(occurs_at(x, thumb_word(), i + 1));
        } else if i + 1 > x.len() {
            let o = i - x.len();
            assert(l.subrange(o, o + 5) =~= s.subrange(i + 1, i + 6));
            assert(s.subrange(i + 1, i + 6) =~= thumb_word()) by {
                assert forall|j: int| 0 <= j < 5 implies s.subrange(i + 1, i + 6)[j] == thumb_word()[j] by {
                    assert(s.subrange(i + 1, i + 6)[j] == s.subrange(i, i + 6)[j + 1]);
                }
            }
            assert(occurs_at(l, thumb_word(), o));
        } else {
            let m = x.len() - i;
            assert(s.subrange(i, i + 6)[m] == s[x.len() as int]);
        }
    }
}

/// The thumbnail name of `x + "_" + l`, where `l` holds no `'_'`, is
/// `x + "_thumb_" + l`.
proof fn lemma_thumb_file_name_of(x: Seq<char>, l: Seq<char>)
    requires
        lacks_char(l, '_'),
    ensures
        thumb_file_name(x + seq!['_'] + l) == x + thumb_marker() + (seq!['_'] + l),
{
    crate::text::lemma_split_on_append(x, '_', l);
    lemma_split_on_nonempty(x, '_');
    crate::text::lemma_joined_split(x, '_');
    let sx = split_on(x, '_');
    let th = thumb_word();
    let segs = sx.push(l);
    assert(segs.insert(segs.len() - 1, th) =~= sx.push(th).push(l));
    crate::text::lemma_joined_push(sx, seq!['_'], th);
    crate::text::lemma_joined_push(sx.push(th), seq!['_'], l);
    assert(thumb_file_name(x + seq!['_'] + l) =~= x + thumb_marker() + (seq!['_'] + l));
}

/// The full image's name of a thumbnail named `x + "_thumb_" + l` is the
/// plain name `x + "_" + l`.
#[verifier::rlimit(40)]
proof fn lemma_full_name_plain(x: Seq<char>, l: Seq<char>, name: Seq<char>)
    requires
        name == x + thumb_marker() + (seq!['_'] + l),
        plain_name(name),
        !contains_text(x, thumb_word()),
        !contains_text(l, thumb_word()),
    ensures
        occurs_at(name, thumb_marker(), x.len() as int),
        replaced(name, thumb_marker(), Seq::empty()) == x + seq!['_'] + l,
        plain_name(x + seq!['_'] + l),
        drive_len(name) == 0 ==> drive_len(x + seq!['_'] + l) == 0,
        x + seq!['_'] + l != dot_dot(),
        !contains_text(x + seq!['_'] + l, thumb_marker()),
{
    assert(name.subrange(x.len() as int, x.len() as int + 6) =~= thumb_marker());
    let n = x + seq!['_'] + l;
    lemma_joined_parts_lack_marker(x, l);
    lemma_remove_inserted_marker(n, x, l);
    assert forall|j: int| 0 <= j < n.len() implies !is_sep(n[j]) by {
        if j < x.len() {
            assert(n[j] == name[j]);
        } else {
            assert(n[j] == name[j + 6]);
        }
    }
    assert(n[x.len() as int] == '_');
    if x.len() >= 2 {
        assert(n[0] == name[0] && n[1] == name[1]);
    }
    assert(n != dot()) by {
        if n == dot() {
            assert(n[0] == '.');
        }
    }
    assert(n != dot_dot()) by {
        if n == dot_dot() {
            assert(n[x.len() as int] == '.');
        }
    }
}

/// Law: the thumbnail of the full image of a thumbnail is that thumbnail
/// (as `Path` compares paths): the counterpart of the counterpart is the
/// image itself; for a file name `x + "_thumb_" + l` where `l` holds no
/// `'_'` and neither part holds `"thumb"`, which does not start like a
/// drive.
pub proof fn law_thumb_of_full(p: Seq<char>, x: Seq<char>, l: Seq<char>)
    requires
        file_name_of(p) == Some(x + thumb_marker() + (seq!['_'] + l)),
        drive_len(x + thumb_marker() + (seq!['_'] + l)) == 0,
        lacks_char(l, '_'),
        !contains_text(x, thumb_word()),
        !contains_text(l, thumb_word()),
    ensures
        is_thumb_path(p),
        same_path(thumb_of(full_of(p)), p),
        same_path(counterpart_of(counterpart_of(p)), p),
{
    let name = x + thumb_marker() + (seq!['_'] + l);
    lemma_components_parent(p);
    let q = parent_of(p).unwrap();
    let n = x + seq!['_'] + l;
    lemma_full_name_plain(x, l, name);
    let full = full_of(p);
    assert(full == pushed(q, n));
    lemma_components_pushed(q, n);
    lemma_components_parent(full);
    lemma_push_cancel(components(parent_of(full).unwrap()), components(q), n);
    assert(!is_thumb_path(full));
    lemma_thumb_file_name_of(x, l);
    let back = thumb_of(full);
    assert(back == pushed(parent_of(full).unwrap(), name));
    lemma_components_pushed(parent_of(full).unwrap(), name);
}

} // verus!
