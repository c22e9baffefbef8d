//! The folders of the characters' mail images: each character's images
//! lie in a folder named by the character's number.

use vstd::prelude::*;
use crate::images::{decimal, decimal_chars};
use crate::text::{chars_of, push_all, same_chars, string_of};

verus! {

/// The characters and the numbers of their image folders.
pub open spec fn characters() -> Seq<(Seq<char>, nat)> {
    seq![
        ("amber"@, 0nat),
        ("sara"@, 1nat),
        ("chloe"@, 2nat),
        ("lisa"@, 3nat),
        ("alexis"@, 4nat),
        ("mrs_rider"@, 5nat),
        ("ayumi"@, 6nat),
        ("lizzie"@, 7nat),
        ("amanda"@, 8nat),
        ("nova"@, 9nat),
        ("amazonness"@, 10nat),
        ("laura"@, 11nat),
        ("anika"@, 12nat),
        ("delliah"@, 13nat),
        ("dominique"@, 14nat),
        ("jane"@, 15nat),
        ("charlotte"@, 16nat),
        ("zoe"@, 17nat),
        ("lana"@, 18nat),
        ("german"@, 19nat),
        ("mermaid"@, 20nat),
        ("yrelianna"@, 21nat),
        ("miriam"@, 22nat),
        ("virgina"@, 23nat),
        ("twins"@, 24nat),
        ("holly"@, 25nat),
        ("mrs_santa"@, 26nat),
        ("eira"@, 27nat),
        ("dita"@, 28nat),
        ("tasha"@, 29nat),
        ("rose"@, 30nat),
        ("princescumxxx"@, 31nat),
        ("group_chats"@, 32nat),
        ("summer_panorama"@, 33nat),
        ("maria"@, 34nat),
        ("dalla"@, 35nat),
        ("saya"@, 36nat),
        ("winter_panorama"@, 40nat),
        ("credita"@, 41nat),
        ("olivia"@, 42nat),
        ("sunset_panorama"@, 43nat),
        ("midnight_panorama"@, 44nat),
        ("solazola"@, 45nat),
        ("roxanne"@, 46nat),
        ("bed_panorama"@, 47nat),
        ("blogoslavieni"@, 48nat),
        ("faye"@, 49nat),
        ("dungeon_of_lust"@, 50nat),
        ("mia20"@, 52nat),
        ("christmas_panorama"@, 54nat),
        ("jade"@, 56nat),
        ("easter_island"@, 57nat),
        ("star_whores"@, 59nat),
        ("iredana"@, 62nat),
        ("super_whores"@, 63nat),
        ("scarlett"@, 70nat),
        ("renegade"@, 71nat),
        ("skyler"@, 72nat),
        ("aysha"@, 73nat),
        ("mia10"@, 74nat),
        ("spa_panorama"@, 75nat),
        ("rene"@, 76nat),
        ("oneira"@, 78nat),
        ("horny_bunch"@, 80nat),
        ("hecate"@, 81nat),
        ("retro"@, 83nat),
        ("country_girls"@, 84nat),
        ("kinky_picnic"@, 85nat),
        ("new_year"@, 86nat),
        ("emma"@, 87nat),
        ("lexee"@, 88nat),
        ("dark_phantasies"@, 89nat),
        ("pippa"@, 91nat),
        ("wizard_of_oz"@, 92nat),
        ("desert_shit"@, 93nat),
        ("georgia"@, 94nat),
        ("archive"@, 1000nat),
    ]
}

/// The characters and the numbers of their image folders.
fn character_table() -> (r: Vec<(&'static str, u32)>)
    ensures
        r@.map_values(|p: (&'static str, u32)| (p.0@, p.1 as nat)) == characters(),
{
    let r = vec![
        ("amber", 0u32),
        ("sara", 1u32),
        ("chloe", 2u32),
        ("lisa", 3u32),
        ("alexis", 4u32),
        ("mrs_rider", 5u32),
        ("ayumi", 6u32),
        ("lizzie", 7u32),
        ("amanda", 8u32),
        ("nova", 9u32),
        ("amazonness", 10u32),
        ("laura", 11u32),
        ("anika", 12u32),
        ("delliah", 13u32),
        ("dominique", 14u32),
        ("jane", 15u32),
        ("charlotte", 16u32),
        ("zoe", 17u32),
        ("lana", 18u32),
        ("german", 19u32),
        ("mermaid", 20u32),
        ("yrelianna", 21u32),
        ("miriam", 22u32),
        ("virgina", 23u32),
        ("twins", 24u32),
        ("holly", 25u32),
        ("mrs_santa", 26u32),
        ("eira", 27u32),
        ("dita", 28u32),
        ("tasha", 29u32),
        ("rose", 30u32),
        ("princescumxxx", 31u32),
        ("group_chats", 32u32),
        ("summer_panorama", 33u32),
        ("maria", 34u32),
        ("dalla", 35u32),
        ("saya", 36u32),
        ("winter_panorama", 40u32),
        ("credita", 41u32),
        ("olivia", 42u32),
        ("sunset_panorama", 43u32),
        ("midnight_panorama", 44u32),
        ("solazola", 45u32),
        ("roxanne", 46u32),
        ("bed_panorama", 47u32),
        ("blogoslavieni", 48u32),
        ("faye", 49u32),
        ("dungeon_of_lust", 50u32),
        ("mia20", 52u32),
        ("christmas_panorama", 54u32),
        ("jade", 56u32),
        ("easter_island", 57u32),
        ("star_whores", 59u32),
        ("iredana", 62u32),
        ("super_whores", 63u32),
        ("scarlett", 70u32),
        ("renegade", 71u32),
        ("skyler", 72u32),
        ("aysha", 73u32),
        ("mia10", 74u32),
        ("spa_panorama", 75u32),
        ("rene", 76u32),
        ("oneira", 78u32),
        ("horny_bunch", 80u32),
        ("hecate", 81u32),
        ("retro", 83u32),
        ("country_girls", 84u32),
        ("kinky_picnic", 85u32),
        ("new_year", 86u32),
        ("emma", 87u32),
        ("lexee", 88u32),
        ("dark_phantasies", 89u32),
        ("pippa", 91u32),
        ("wizard_of_oz", 92u32),
        ("desert_shit", 93u32),
        ("georgia", 94u32),
        ("archive", 1000u32),
    ];
    assert(r@.map_values(|p: (&'static str, u32)| (p.0@, p.1 as nat)) =~= characters());
    r
}

/// The number of the first character of `table` named `name`.
pub open spec fn number_in(table: Seq<(Seq<char>, nat)>, name: Seq<char>) -> Option<nat>
    decreases table.len(),
{
    if table.len() == 0 {
        None
    } else if table[0].0 == name {
        Some(table[0].1)
    } else {
        number_in(table.drop_first(), name)
    }
}

/// The name of the first character of `table` numbered `n`.
pub open spec fn name_in(table: Seq<(Seq<char>, nat)>, n: nat) -> Option<Seq<char>>
    decreases table.len(),
{
    if table.len() == 0 {
        None
    } else if table[0].1 == n {
        Some(table[0].0)
    } else {
        name_in(table.drop_first(), n)
    }
}

/// The text is a number written with decimal digits.
pub open spec fn is_number_text(s: Seq<char>) -> bool {
    s.len() > 0 && forall|i: int| 0 <= i < s.len() ==> '0' <= #[trigger] s[i] && s[i] <= '9'
}

/// The folder of a character's images: the character's number, or the text
/// itself when it is a number; none for any other text.
pub open spec fn folder_of(name: Seq<char>) -> Option<Seq<char>> {
    match number_in(characters(), name) {
        Some(n) => Some(decimal(n)),
        None => if is_number_text(name) {
            Some(name)
        } else {
            None
        },
    }
}

/// The folder of a character's images (see `folder_of`).
pub fn character_folder(name: &str) -> (r: Option<String>)
    ensures
        match r {
            Some(f) => folder_of(name@) == Some(f@),
            None => folder_of(name@) is None,
        },
{
    let table = character_table();
    let wanted = chars_of(name);
    let ghost all = table@.map_values(|p: (&'static str, u32)| (p.0@, p.1 as nat));
    let mut i: usize = 0;
    assert(all.skip(0) =~= all);
    while i < table.len()
        invariant
            i <= table.len(),
            all == table@.map_values(|p: (&'static str, u32)| (p.0@, p.1 as nat)),
            all == characters(),
            wanted@ == name@,
            number_in(all, name@) == number_in(all.skip(i as int), name@),
        decreases table.len() - i,
    {
        let ghost rest = all.skip(i as int);
        assert(rest[0] == all[i as int]);
        assert(rest.drop_first() =~= all.skip(i + 1));
        let (entry, n) = table[i];
        if same_chars(&chars_of(entry), &wanted) {
            return Some(string_of(&decimal_chars(n)));
        }
        i += 1;
    }
    let mut k: usize = 0;
    let mut digits_only = wanted.len() > 0;
    while k < wanted.len()
        invariant
            k <= wanted.len(),
            digits_only == (wanted@.len() > 0 && forall|j: int| 0 <= j < k ==> '0' <= #[trigger] wanted@[j] && wanted@[j] <= '9'),
        decreases wanted.len() - k,
    {
        if !('0' <= wanted[k] && wanted[k] <= '9') {
            digits_only = false;
        }
        k += 1;
    }
    if digits_only {
        Some(string_of(&wanted))
    } else {
        None
    }
}

/// The name of the character whose images lie in folder number `n`.
pub fn character_name(n: u32) -> (r: Option<String>)
    ensures
        match r {
            Some(s) => name_in(characters(), n as nat) == Some(s@),
            None => name_in(characters(), n as nat) is None,
        },
{
    let table = character_table();
    let ghost all = table@.map_values(|p: (&'static str, u32)| (p.0@, p.1 as nat));
    let mut i: usize = 0;
    assert(all.skip(0) =~= all);
    while i < table.len()
        invariant
            i <= table.len(),
            all == table@.map_values(|p: (&'static str, u32)| (p.0@, p.1 as nat)),
            all == characters(),
            name_in(all, n as nat) == name_in(all.skip(i as int), n as nat),
        decreases table.len() - i,
    {
        let ghost rest = all.skip(i as int);
        assert(rest[0] == all[i as int]);
        assert(rest.drop_first() =~= all.skip(i + 1));
        let (entry, m) = table[i];
        if m == n {
            return Some(string_of(&chars_of(entry)));
        }
        i += 1;
    }
    None
}

/// A folder followed by `'/'` and each of the subfolders in turn.
pub open spec fn with_subfolders(folder: Seq<char>, subfolders: Seq<Seq<char>>) -> Seq<char>
    decreases subfolders.len(),
{
    if subfolders.len() == 0 {
        folder
    } else {
        with_subfolders(folder, subfolders.drop_last()) + seq!['/'] + subfolders.last()
    }
}

/// The entry of the static image list for a character and the subfolders
/// below its folder, e.g. `lisa` and `a`, `b` give `3/a/b`; none for text
/// that is neither a known character nor a number, or without subfolders.
pub fn image_entry(character: &str, subfolders: &Vec<String>) -> (r: Option<String>)
    ensures
        match r {
            Some(e) => {
                &&& subfolders.len() > 0
                &&& folder_of(character@) is Some
                &&& e@ == with_subfolders(
                    folder_of(character@).unwrap(),
                    subfolders@.map_values(|s: String| s@),
                )
            },
            None => subfolders.len() == 0 || folder_of(character@) is None,
        },
{
    if subfolders.len() == 0 {
        return None;
    }
    let folder = match character_folder(character) {
        Some(f) => f,
        None => return None,
    };
    let ghost subs = subfolders@.map_values(|s: String| s@);
    let mut e = chars_of(folder.as_str());
    let mut i: usize = 0;
    assert(subs.take(0) =~= Seq::<Seq<char>>::empty());
    while i < subfolders.len()
        invariant
            i <= subfolders.len(),
            subs == subfolders@.map_values(|s: String| s@),
            e@ == with_subfolders(folder@, subs.take(i as int)),
        decreases subfolders.len() - i,
    {
        assert(subs.take(i + 1).drop_last() =~= subs.take(i as int));
        assert(subs.take(i + 1).last() == subfolders@[i as int]@);
        e.push('/');
        push_all(&mut e, &chars_of(subfolders[i].as_str()));
        i += 1;
    }
    assert(subs.take(i as int) =~= subs);
    Some(string_of(&e))
}

} // verus!
