# fcu

Bookkeeping for the mail images of a game: the list file of known image
names, the links images are downloaded from, thumbnails and full images,
and patterns that stand for many image names.

- `src/` is the library, verified with Verus:
  - `text.rs`: character-level operations (`replace`, `split`, `join`,
    `lines`, `trim`, lexicographic order), each proved against a spec function;
  - `names.rs`: normal forms of names, the set of names, the list file's text,
    and what saving produces; laws on the list text (a normal name stays
    normal, the list rewritten from its own lines is unchanged, two saves
    over the same folder write the same text);
  - `paths.rs`: the path model, read by `std::path`'s Windows component
    rules with drive prefixes (file name, parent, stem, extension, renaming);
  - `images.rs`: thumbnails and full images, links, missing images; the laws
    that a full image's thumbnail leads back to it, and a thumbnail's full
    image back to the thumbnail;
  - `bruteforce.rs`: reading patterns into tokens and expanding them;
  - `stats.rs`: counting images and choosing files to transfer;
  - `characters.rs`: the numbered image folders of the characters.
- `app/` is the command-line program: file and network I/O, folder scans,
  printing, and the pauses between requests.
- `tests/` runs the library on concrete values.
