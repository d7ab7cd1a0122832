//! Which paths count as images, and the order in which paths are listed:
//! by file name, ignoring case, keeping equal names in their given order.

use vstd::prelude::*;

verus! {

/// `n` occurs in `p` as a contiguous run.
pub open spec fn is_infix(n: Seq<char>, p: Seq<char>) -> bool {
    exists|i: int| 0 <= i && i + n.len() <= p.len() && #[trigger] p.subrange(i, i + n.len()) == n
}

/// `e` occurs in `p` right after a `'.'`.
pub open spec fn follows_dot(e: Seq<char>, p: Seq<char>) -> bool {
    exists|i: int| 1 <= i && i + e.len() <= p.len() && p[i - 1] == '.' && #[trigger] p.subrange(i, i + e.len()) == e
}

/// A file name taken from path `p`: empty, or a run of `p`, without `'/'`
/// unless `p` starts with two separators (under a Windows verbatim prefix
/// only `'\\'` separates components).
pub open spec fn is_name_in(n: Seq<char>, p: Seq<char>) -> bool {
    n.len() == 0 || (is_infix(n, p) && (!starts_with_two_separators(p) ==> !n.contains('/')))
}

/// `p` starts with two separators, which Windows reads as a UNC, device or
/// verbatim prefix.
pub open spec fn starts_with_two_separators(p: Seq<char>) -> bool {
    p.len() >= 2 && is_separator(p[0]) && is_separator(p[1])
}

/// What `str::to_lowercase` gives for `s` (full Unicode lower-casing).
pub uninterp spec fn lowercase(s: Seq<char>) -> Seq<char>;

/// `p` holds none of the characters that separate components or start a
/// prefix on any platform (`'/'`, `'\\'`, `':'`), so that it is a single
/// component everywhere.
pub open spec fn no_separators(p: Seq<char>) -> bool {
    !p.contains('/') && !p.contains('\\') && !p.contains(':')
}

/// The index of the last `c` in `s`, or -1 when there is none.
pub open spec fn last_index_of(s: Seq<char>, c: char) -> int
    decreases s.len(),
{
    if s.len() == 0 {
        -1
    } else if s.last() == c {
        s.len() - 1
    } else {
        last_index_of(s.drop_last(), c)
    }
}

/// A character that separates path components on some platform (`'/'`
/// everywhere, `'\\'` on Windows too).
pub open spec fn is_separator(c: char) -> bool {
    c == '/' || c == '\\'
}

/// What follows the last `'/'` of `p`; all of `p` when it has none.
pub open spec fn last_segment(p: Seq<char>) -> Seq<char> {
    p.subrange(last_index_of(p, '/') + 1, p.len() as int)
}

/// The final component of `p` is the same on every platform: `p` does not
/// start with two separators (which Windows reads as a UNC, device or verbatim
/// prefix), what follows its last `'/'` holds no separator or prefix
/// character, and, when `p` has a `'/'`, that part is neither empty nor `.`
/// (either would leave the name to an earlier component).
pub open spec fn plain_path(p: Seq<char>) -> bool {
    let n = last_segment(p);
    &&& !starts_with_two_separators(p)
    &&& no_separators(n)
    &&& (last_index_of(p, '/') >= 0 ==> n.len() > 0 && n != seq!['.'])
}

/// The file name of a plain path, as `Path::file_name` documents it: its
/// final part, and none when that part is empty, `.` or `..`.
pub open spec fn plain_file_name(p: Seq<char>) -> Option<Seq<char>> {
    let n = last_segment(p);
    if n.len() == 0 || n == seq!['.'] || n == seq!['.', '.'] {
        None
    } else {
        Some(n)
    }
}

/// The extension of a plain path: that of its file name, none without one.
pub open spec fn plain_extension(p: Seq<char>) -> Option<Seq<char>> {
    match plain_file_name(p) {
        Some(n) => name_extension(n),
        None => None,
    }
}

/// A plain path names an image: its extension is an image format, ignoring ASCII case.
pub open spec fn is_image_path(p: Seq<char>) -> bool {
    plain_extension(p) matches Some(e) && is_image_extension_spec(e)
}

/// `std::path::Path::file_name` of `path`, when it is valid UTF-8.
/// Claimed: the name is a contiguous run of `path`, without `'/'` unless the
/// path starts with two separators (a Windows verbatim prefix makes `'/'` an
/// ordinary character), and for a
/// plain path it is `plain_file_name`, as the documentation describes the
/// final component (`'/'` separates components on every platform; `.` is
/// normalised away; a path ending in `..` has no file name). For other paths
/// (a Windows prefix, a final part holding `'\\'` or `':'`, a trailing `'/'`
/// or `.`) the platform decides, and that is left unsaid.
#[verifier::external_body]
fn file_name_of(path: &str) -> (r: Option<String>)
    ensures
        r matches Some(n) ==> is_infix(n@, path@),
        !starts_with_two_separators(path@) ==> (r matches Some(n) ==> !n@.contains('/')),
        plain_path(path@) ==> (r is Some <==> plain_file_name(path@) is Some),
        plain_path(path@) ==> (r matches Some(n) ==> plain_file_name(path@) == Some(n@)),
{
    std::path::Path::new(path).file_name().and_then(|n| n.to_str()).map(|n| n.to_string())
}

/// The extension of the single path component `f`, as `Path::extension`
/// documents it: none when `f` is empty, `.` or `..` (no file name), none
/// without a `'.'` or when the only `'.'` leads the name, otherwise what
/// follows the final `'.'`.
pub open spec fn name_extension(f: Seq<char>) -> Option<Seq<char>> {
    let i = last_index_of(f, '.');
    if f.len() == 0 || f == seq!['.'] || f == seq!['.', '.'] || i <= 0 {
        None
    } else {
        Some(f.subrange(i + 1, f.len() as int))
    }
}

/// `std::path::Path::extension` of `path`, when it is valid UTF-8.
/// Claimed: a path without `'.'` has no extension; an extension is a run of
/// `path` right after a `'.'` and holds no `'.'`, nor `'/'` unless the path
/// starts with two separators (see `file_name_of`); and for a
/// plain path it is `plain_extension`: the documented rule (`name_extension`)
/// applied to its file name. For other paths the platform decides which
/// component is the file name, and that is left unsaid.
#[verifier::external_body]
fn extension_of(path: &str) -> (r: Option<String>)
    ensures
        !path@.contains('.') ==> r is None,
        r matches Some(e) ==> follows_dot(e@, path@) && !e@.contains('.'),
        !starts_with_two_separators(path@) ==> (r matches Some(e) ==> !e@.contains('/')),
        plain_path(path@) ==> (r is Some <==> plain_extension(path@) is Some),
        plain_path(path@) ==> (r matches Some(e) ==> plain_extension(path@) == Some(e@)),
{
    std::path::Path::new(path).extension().and_then(|e| e.to_str()).map(|e| e.to_string())
}

/// Every character of `s` is ASCII.
pub open spec fn all_ascii(s: Seq<char>) -> bool {
    forall|i: int| 0 <= i < s.len() ==> (#[trigger] s[i] as u32) < 128
}

/// `str::to_lowercase`. Claimed: the result is `lowercase(s)`; for ASCII
/// text that is the ASCII lower-casing (only `'A'`..`'Z'` change), as the
/// Unicode lowercase mapping gives for those characters.
#[verifier::external_body]
fn to_lowercase(s: &str) -> (r: String)
    ensures
        r@ == lowercase(s@),
        all_ascii(s@) ==> r@ == s@.map_values(|c: char| ascii_lower(c)),
{
    s.to_lowercase()
}

/// `c` with ASCII upper-case letters mapped to lower case.
pub open spec fn ascii_lower(c: char) -> char {
    if 'A' <= c && c <= 'Z' { ((c as u32) + 32) as char } else { c }
}

/// The file extensions treated as images, in lower case.
pub open spec fn image_extensions() -> Seq<Seq<char>> {
    seq![
        seq!['p', 'n', 'g'],
        seq!['j', 'p', 'g'],
        seq!['j', 'p', 'e', 'g'],
        seq!['b', 'm', 'p'],
        seq!['g', 'i', 'f'],
        seq!['w', 'e', 'b', 'p'],
    ]
}

/// `e` names an image format, ignoring ASCII case.
pub open spec fn is_image_extension_spec(e: Seq<char>) -> bool {
    image_extensions().contains(e.map_values(|c: char| ascii_lower(c)))
}

/// Maps an ASCII upper-case letter to lower case and leaves every other character alone.
pub fn to_ascii_lower(c: char) -> (r: char)
    ensures
        r == ascii_lower(c),
{
    if 'A' <= c && c <= 'Z' {
        let code: u8 = (c as u32 + 32) as u8;
        code as char
    } else {
        c
    }
}

/// The characters of `s`, in order.
pub fn chars_of(s: &str) -> (r: Vec<char>)
    ensures
        r@ == s@,
{
    let n: usize = s.unicode_len();
    let mut out: Vec<char> = Vec::new();
    let mut i: usize = 0;
    while i < n
        invariant
            n == s@.len(),
            i <= n,
            out@ == s@.subrange(0, i as int),
        decreases n - i,
    {
        out.push(s.get_char(i));
        i = i + 1;
    }
    out
}

/// True when `chars`, with ASCII letters lower-cased, spell out `word`.
pub fn equals_folding_ascii(chars: &[char], word: &[char]) -> (r: bool)
    ensures
        r == (chars@.map_values(|c: char| ascii_lower(c)) == word@),
{
    let ghost folded = chars@.map_values(|c: char| ascii_lower(c));
    if chars.len() != word.len() {
        assert(folded.len() != word@.len());
        return false;
    }
    let mut i: usize = 0;
    while i < chars.len()
        invariant
            chars@.len() == word@.len(),
            i <= chars@.len(),
            folded == chars@.map_values(|c: char| ascii_lower(c)),
            forall|j: int| 0 <= j < i ==> folded[j] == word@[j],
        decreases chars@.len() - i,
    {
        if to_ascii_lower(chars[i]) != word[i] {
            assert(folded[i as int] != word@[i as int]);
            return false;
        }
        i = i + 1;
    }
    assert(folded =~= word@);
    true
}

/// True when `ext` is one of png, jpg, jpeg, bmp, gif or webp, ignoring ASCII case.
pub fn is_image_extension(ext: &str) -> (r: bool)
    ensures
        r == is_image_extension_spec(ext@),
{
    let chars = chars_of(ext);
    let ghost folded = ext@.map_values(|c: char| ascii_lower(c));
    let png: [char; 3] = ['p', 'n', 'g'];
    let jpg: [char; 3] = ['j', 'p', 'g'];
    let jpeg: [char; 4] = ['j', 'p', 'e', 'g'];
    let bmp: [char; 3] = ['b', 'm', 'p'];
    let gif: [char; 3] = ['g', 'i', 'f'];
    let webp: [char; 4] = ['w', 'e', 'b', 'p'];
    let r = equals_folding_ascii(&chars, &png) || equals_folding_ascii(&chars, &jpg)
        || equals_folding_ascii(&chars, &jpeg) || equals_folding_ascii(&chars, &bmp)
        || equals_folding_ascii(&chars, &gif) || equals_folding_ascii(&chars, &webp);
    proof {
        let exts = image_extensions();
        assert(png@ == exts[0]);
        assert(jpg@ == exts[1]);
        assert(jpeg@ == exts[2]);
        assert(bmp@ == exts[3]);
        assert(gif@ == exts[4]);
        assert(webp@ == exts[5]);
        if exts.contains(folded) {
            let k = choose|k: int| 0 <= k < exts.len() && exts[k] == folded;
            assert(0 <= k < 6);
        }
    }
    r
}

/// True when `path` has an extension naming an image format (png, jpg, jpeg,
/// bmp, gif, webp), ignoring ASCII case. For a plain path (such as
/// `dir/sub/name.ext`) this is exactly whether the extension of its file
/// name is one of those.
pub fn is_image_ext(path: &str) -> (r: bool)
    ensures
        r ==> exists|e: Seq<char>| #[trigger] follows_dot(e, path@) && !e.contains('.') && is_image_extension_spec(e),
        !path@.contains('.') ==> !r,
        plain_path(path@) ==> (r <==> is_image_path(path@)),
{
    match extension_of(path) {
        Some(ext) => is_image_extension(ext.as_str()),
        None => false,
    }
}

/// Strict lexicographic order on character sequences, by code point; a
/// proper prefix comes first. This is the order of `str` comparison.
pub open spec fn chars_before(a: Seq<char>, b: Seq<char>) -> bool
    decreases a.len(),
{
    if b.len() == 0 {
        false
    } else if a.len() == 0 {
        true
    } else if (a[0] as u32) != (b[0] as u32) {
        (a[0] as u32) < (b[0] as u32)
    } else {
        chars_before(a.drop_first(), b.drop_first())
    }
}

/// Where `key` enters the key list `keys`: before the first key that sorts after it.
pub open spec fn insertion_point(keys: Seq<Seq<char>>, key: Seq<char>) -> int
    decreases keys.len(),
{
    if keys.len() == 0 {
        0
    } else if chars_before(key, keys[0]) {
        0
    } else {
        1 + insertion_point(keys.drop_first(), key)
    }
}

/// The keys of keyed items.
pub open spec fn keys_of(items: Seq<(Seq<char>, Seq<char>)>) -> Seq<Seq<char>> {
    items.map_values(|it: (Seq<char>, Seq<char>)| it.0)
}

/// The values of keyed items.
pub open spec fn values_of(items: Seq<(Seq<char>, Seq<char>)>) -> Seq<Seq<char>> {
    items.map_values(|it: (Seq<char>, Seq<char>)| it.1)
}

/// Stable insertion sort of `(key, value)` items by key: each item in turn
/// goes after every earlier item whose key does not sort after its own.
pub open spec fn sorted_by_key(items: Seq<(Seq<char>, Seq<char>)>) -> Seq<(Seq<char>, Seq<char>)>
    decreases items.len(),
{
    if items.len() == 0 {
        Seq::empty()
    } else {
        let rest = sorted_by_key(items.drop_last());
        let x = items.last();
        rest.insert(insertion_point(keys_of(rest), x.0), x)
    }
}

/// Pairs each key with the value at the same index.
pub open spec fn keyed(keys: Seq<Seq<char>>, values: Seq<Seq<char>>) -> Seq<(Seq<char>, Seq<char>)> {
    Seq::new(values.len(), |i: int| (keys[i], values[i]))
}

/// The sort key of a path: the lower-cased form of its file name.
pub open spec fn name_keys(names: Seq<Seq<char>>) -> Seq<Seq<char>> {
    names.map_values(|n: Seq<char>| lowercase(n))
}

/// True when `a` sorts strictly before `b`.
pub fn chars_precede(a: &[char], b: &[char]) -> (r: bool)
    ensures
        r == chars_before(a@, b@),
{
    let mut i: usize = 0;
    assert(a@.subrange(0, a@.len() as int) =~= a@);
    assert(b@.subrange(0, b@.len() as int) =~= b@);
    while i < a.len() && i < b.len()
        invariant
            i <= a@.len(),
            i <= b@.len(),
            chars_before(a@, b@) == chars_before(a@.subrange(i as int, a@.len() as int), b@.subrange(i as int, b@.len() as int)),
        decreases a@.len() - i,
    {
        let ghost ra = a@.subrange(i as int, a@.len() as int);
        let ghost rb = b@.subrange(i as int, b@.len() as int);
        let ca: u32 = a[i] as u32;
        let cb: u32 = b[i] as u32;
        if ca != cb {
            assert(ra[0] == a@[i as int] && rb[0] == b@[i as int]);
            return ca < cb;
        }
        assert(ra.drop_first() =~= a@.subrange(i + 1, a@.len() as int));
        assert(rb.drop_first() =~= b@.subrange(i + 1, b@.len() as int));
        i = i + 1;
    }
    i < b.len()
}

/// Stable sort of `values` by `keys` (same length): the values come out in
/// `sorted_by_key` order of the pairs.
pub fn sort_by_keys(values: &mut Vec<String>, keys: Vec<Vec<char>>)
    requires
        keys@.len() == old(values)@.len(),
    ensures
        strings_of(final(values)@) == values_of(sorted_by_key(keyed(key_seqs(keys@), strings_of(old(values)@)))),
{
    let ghost items = keyed(key_seqs(keys@), strings_of(values@));
    let n: usize = values.len();
    let mut out_values: Vec<String> = Vec::new();
    let mut out_keys: Vec<Vec<char>> = Vec::new();
    let mut i: usize = 0;
    while i < n
        invariant
            n == values@.len(),
            n == keys@.len(),
            i <= n,
            items == keyed(key_seqs(keys@), strings_of(values@)),
            out_values@.len() == out_keys@.len(),
            sorted_by_key(items.take(i as int)) == keyed(key_seqs(out_keys@), strings_of(out_values@)),
        decreases n - i,
    {
        let ghost sorted_before = sorted_by_key(items.take(i as int));
        let ghost okeys = key_seqs(out_keys@);
        assert(keys_of(sorted_before) =~= okeys);
        let key = &keys[i];
        let mut j: usize = 0;
        assert(okeys.subrange(0, okeys.len() as int) =~= okeys);
        while j < out_keys.len() && !chars_precede(key, &out_keys[j])
            invariant
                j <= out_keys@.len(),
                okeys == key_seqs(out_keys@),
                insertion_point(okeys, key@) == j + insertion_point(okeys.subrange(j as int, okeys.len() as int), key@),
            decreases out_keys@.len() - j,
        {
            let ghost rest = okeys.subrange(j as int, okeys.len() as int);
            assert(rest.drop_first() =~= okeys.subrange(j + 1, okeys.len() as int));
            j = j + 1;
        }
        proof {
            let rest = okeys.subrange(j as int, okeys.len() as int);
            if j < out_keys@.len() {
                assert(rest[0] == okeys[j as int]);
            }
        }
        let ghost before_values = out_values@;
        let ghost before_keys = out_keys@;
        out_values.insert(j, values[i].clone());
        out_keys.insert(j, keys[i].clone());
        proof {
            assert(items.take(i + 1).drop_last() =~= items.take(i as int));
            assert(items.take(i + 1).last() == items[i as int]);
            assert(key_seqs(out_keys@) =~= okeys.insert(j as int, key@));
            assert(strings_of(out_values@) =~= strings_of(before_values).insert(j as int, values@[i as int]@));
            assert(keyed(key_seqs(out_keys@), strings_of(out_values@)) =~= sorted_before.insert(j as int, items[i as int]));
        }
        i = i + 1;
    }
    proof {
        assert(items.take(n as int) =~= items);
    }
    *values = out_values;
}

/// The views of a sequence of strings.
pub open spec fn strings_of(v: Seq<String>) -> Seq<Seq<char>> {
    v.map_values(|s: String| s@)
}

/// The views of a sequence of character vectors.
pub open spec fn key_seqs(v: Seq<Vec<char>>) -> Seq<Seq<char>> {
    v.map_values(|k: Vec<char>| k@)
}

/// `n` is the name under which path `p` sorts: for a plain path its file
/// name, or the empty name when it has none; for another path some run of it
/// without `'/'`, or the empty name, as the platform decides.
pub open spec fn sort_name(n: Seq<char>, p: Seq<char>) -> bool {
    if plain_path(p) {
        n == match plain_file_name(p) {
            Some(m) => m,
            None => Seq::<char>::empty(),
        }
    } else {
        is_name_in(n, p)
    }
}

/// Sorts paths by file name ignoring case (full Unicode lower-casing);
/// paths with equal names keep their order. A path without a UTF-8 file
/// name sorts under the empty name.
pub fn sort_paths(paths: &mut Vec<String>)
    ensures
        exists|names: Seq<Seq<char>>|
            names.len() == old(paths)@.len()
                && (forall|i: int| 0 <= i < names.len() ==> sort_name(#[trigger] names[i], old(paths)@[i]@))
                && strings_of(final(paths)@) == values_of(
                    sorted_by_key(keyed(name_keys(names), strings_of(old(paths)@))),
                ),
        all_plain(strings_of(old(paths)@)) ==> strings_of(final(paths)@) == plain_sorted(strings_of(old(paths)@)),
{
    let n: usize = paths.len();
    let mut keys: Vec<Vec<char>> = Vec::new();
    let ghost mut names: Seq<Seq<char>> = Seq::empty();
    let mut i: usize = 0;
    while i < n
        invariant
            n == paths@.len(),
            i <= n,
            keys@.len() == i,
            names.len() == i,
            forall|j: int| 0 <= j < i ==> sort_name(#[trigger] names[j], paths@[j]@),
            key_seqs(keys@) == name_keys(names),
        decreases n - i,
    {
        let name = match file_name_of(paths[i].as_str()) {
            Some(found) => found,
            None => String::new(),
        };
        let lower = to_lowercase(name.as_str());
        let ghost old_keys = keys@;
        keys.push(chars_of(lower.as_str()));
        proof {
            let ghost old_names = names;
            names = names.push(name@);
            assert(keys@.last()@ == lowercase(name@));
            assert(key_seqs(keys@) =~= name_keys(names)) by {
                assert forall|j: int| 0 <= j < names.len() implies key_seqs(keys@)[j] == name_keys(names)[j] by {
                    if j < names.len() - 1 {
                        assert(names[j] == old_names[j]);
                        assert(keys@[j] == old_keys[j]);
                        assert(key_seqs(old_keys)[j] == name_keys(old_names)[j]);
                    }
                }
            }
        }
        i = i + 1;
    }
    let ghost olds = strings_of(paths@);
    proof {
        if all_plain(olds) {
            assert(name_keys(names) =~= plain_keys(olds)) by {
                assert forall|j: int| 0 <= j < names.len() implies name_keys(names)[j] == plain_keys(olds)[j] by {
                    assert(sort_name(names[j], paths@[j]@));
                    assert(plain_path(olds[j]));
                }
            }
        }
    }
    sort_by_keys(paths, keys);
}

/// Every path of `paths` is plain.
pub open spec fn all_plain(paths: Seq<Seq<char>>) -> bool {
    forall|i: int| 0 <= i < paths.len() ==> plain_path(#[trigger] paths[i])
}

/// The sort key of a plain path: its lower-cased file name, the empty name
/// when it has none.
pub open spec fn plain_key(p: Seq<char>) -> Seq<char> {
    lowercase(
        match plain_file_name(p) {
            Some(m) => m,
            None => Seq::<char>::empty(),
        },
    )
}

/// The sort keys of plain paths.
pub open spec fn plain_keys(paths: Seq<Seq<char>>) -> Seq<Seq<char>> {
    paths.map_values(|p: Seq<char>| plain_key(p))
}

/// Plain paths sorted as `sort_paths` sorts them.
pub open spec fn plain_sorted(paths: Seq<Seq<char>>) -> Seq<Seq<char>> {
    values_of(sorted_by_key(keyed(plain_keys(paths), paths)))
}

/// With no key sorting after `key`, `key` enters at the end.
proof fn lemma_insertion_point_end(keys: Seq<Seq<char>>, key: Seq<char>)
    requires
        forall|m: int| 0 <= m < keys.len() ==> !chars_before(key, #[trigger] keys[m]),
    ensures
        insertion_point(keys, key) == keys.len(),
    decreases keys.len(),
{
    if keys.len() > 0 {
        assert(!chars_before(key, keys[0]));
        assert forall|m: int| 0 <= m < keys.drop_first().len() implies !chars_before(key, #[trigger] keys.drop_first()[m]) by {
            assert(keys.drop_first()[m] == keys[m + 1]);
        }
        lemma_insertion_point_end(keys.drop_first(), key);
    }
}

/// Items already in key order come out of the sort unchanged.
pub proof fn lemma_sorted_of_ascending(items: Seq<(Seq<char>, Seq<char>)>)
    requires
        keys_ascending(items),
    ensures
        sorted_by_key(items) == items,
    decreases items.len(),
{
    if items.len() > 0 {
        let front = items.drop_last();
        let x = items.last();
        assert(keys_ascending(front)) by {
            assert forall|i: int, j: int| 0 <= i < j < front.len() implies !chars_before(#[trigger] front[j].0, #[trigger] front[i].0) by {
                assert(front[i] == items[i] && front[j] == items[j]);
            }
        }
        lemma_sorted_of_ascending(front);
        assert forall|m: int| 0 <= m < keys_of(front).len() implies !chars_before(x.0, #[trigger] keys_of(front)[m]) by {
            assert(keys_of(front)[m] == items[m].0);
            assert(x == items[items.len() - 1]);
        }
        lemma_insertion_point_end(keys_of(front), x.0);
        assert(front.insert(front.len() as int, x) =~= items);
    }
}

/// Sorting plain paths twice gives the same order as sorting them once, and
/// the sorted paths are plain again.
pub proof fn lemma_sort_paths_idempotent(paths: Seq<Seq<char>>)
    requires
        all_plain(paths),
    ensures
        all_plain(plain_sorted(paths)),
        plain_sorted(plain_sorted(paths)) == plain_sorted(paths),
{
    let items = keyed(plain_keys(paths), paths);
    let sorted = sorted_by_key(items);
    let s1 = values_of(sorted);
    lemma_sorted_by_key_permutes(items);
    lemma_sorted_by_key_ascending(items);
    // Every sorted item is one of the original items.
    assert forall|i: int| 0 <= i < sorted.len() implies #[trigger] sorted[i].0 == plain_key(sorted[i].1)
        && plain_path(sorted[i].1) by {
        let e = sorted[i];
        assert(sorted.to_multiset().count(e) > 0) by {
            vstd::seq_lib::to_multiset_contains(sorted, e);
            assert(sorted.contains(e));
        }
        vstd::seq_lib::to_multiset_contains(items, e);
        let k = choose|k: int| 0 <= k < items.len() && items[k] == e;
        assert(items[k] == (plain_keys(paths)[k], paths[k]));
    }
    assert forall|i: int| 0 <= i < s1.len() implies plain_path(#[trigger] s1[i]) by {
        assert(s1[i] == sorted[i].1);
        assert(sorted[i].0 == plain_key(sorted[i].1) && plain_path(sorted[i].1));
    }
    assert(keyed(plain_keys(s1), s1) =~= sorted) by {
        assert forall|i: int| 0 <= i < s1.len() implies keyed(plain_keys(s1), s1)[i] == sorted[i] by {
            assert(s1[i] == sorted[i].1);
            assert(sorted[i].0 == plain_key(sorted[i].1));
        }
    }
    lemma_sorted_of_ascending(sorted);
}

/// `chars_before` is asymmetric.
pub proof fn lemma_chars_before_asymmetric(a: Seq<char>, b: Seq<char>)
    ensures
        chars_before(a, b) ==> !chars_before(b, a),
    decreases a.len(),
{
    if a.len() > 0 && b.len() > 0 && (a[0] as u32) == (b[0] as u32) {
        lemma_chars_before_asymmetric(a.drop_first(), b.drop_first());
    }
}

/// "Does not sort before" is transitive.
pub proof fn lemma_not_before_transitive(a: Seq<char>, b: Seq<char>, c: Seq<char>)
    requires
        !chars_before(b, a),
        !chars_before(c, b),
    ensures
        !chars_before(c, a),
    decreases a.len(),
{
    if a.len() > 0 && b.len() > 0 && c.len() > 0 && (a[0] as u32) == (b[0] as u32)
        && (b[0] as u32) == (c[0] as u32) {
        lemma_not_before_transitive(a.drop_first(), b.drop_first(), c.drop_first());
    }
}

/// The insertion point lies in the key list, every key before it does not
/// sort after `key`, and the key at it does.
pub proof fn lemma_insertion_point(keys: Seq<Seq<char>>, key: Seq<char>)
    ensures
        0 <= insertion_point(keys, key) <= keys.len(),
        forall|m: int| 0 <= m < insertion_point(keys, key) ==> !chars_before(key, #[trigger] keys[m]),
        insertion_point(keys, key) < keys.len() ==> chars_before(key, keys[insertion_point(keys, key)]),
    decreases keys.len(),
{
    if keys.len() > 0 && !chars_before(key, keys[0]) {
        lemma_insertion_point(keys.drop_first(), key);
        assert forall|m: int| 0 <= m < insertion_point(keys, key) implies !chars_before(key, #[trigger] keys[m]) by {
            if m > 0 {
                assert(keys[m] == keys.drop_first()[m - 1]);
            }
        }
    }
}

/// The keys of `items` never decrease along the sequence.
pub open spec fn keys_ascending(items: Seq<(Seq<char>, Seq<char>)>) -> bool {
    forall|i: int, j: int| 0 <= i < j < items.len() ==> !chars_before(#[trigger] items[j].0, #[trigger] items[i].0)
}

/// Sorting by key yields ascending keys.
pub proof fn lemma_sorted_by_key_ascending(items: Seq<(Seq<char>, Seq<char>)>)
    ensures
        keys_ascending(sorted_by_key(items)),
        sorted_by_key(items).len() == items.len(),
    decreases items.len(),
{
    if items.len() > 0 {
        let rest = sorted_by_key(items.drop_last());
        let x = items.last();
        let ks = keys_of(rest);
        lemma_sorted_by_key_ascending(items.drop_last());
        lemma_insertion_point(ks, x.0);
        let p = insertion_point(ks, x.0);
        let out = rest.insert(p, x);
        assert(out == sorted_by_key(items));
        assert forall|i: int, j: int| 0 <= i < j < out.len() implies !chars_before(#[trigger] out[j].0, #[trigger] out[i].0) by {
            if j < p {
                assert(out[i] == rest[i] && out[j] == rest[j]);
            } else if j == p {
                assert(out[i] == rest[i] && ks[i] == rest[i].0);
                lemma_chars_before_asymmetric(out[j].0, out[i].0);
            } else if i < p {
                assert(out[i] == rest[i] && out[j] == rest[j - 1]);
            } else if i == p {
                assert(out[j] == rest[j - 1]);
                assert(ks[p] == rest[p].0);
                lemma_chars_before_asymmetric(x.0, rest[p].0);
                if j - 1 > p {
                    lemma_not_before_transitive(x.0, rest[p].0, rest[j - 1].0);
                }
            } else {
                assert(out[i] == rest[i - 1] && out[j] == rest[j - 1]);
            }
        }
    }
}

/// Sorting by key only rearranges the items.
pub proof fn lemma_sorted_by_key_permutes(items: Seq<(Seq<char>, Seq<char>)>)
    ensures
        sorted_by_key(items).to_multiset() == items.to_multiset(),
    decreases items.len(),
{
    if items.len() > 0 {
        let rest = sorted_by_key(items.drop_last());
        let x = items.last();
        lemma_sorted_by_key_permutes(items.drop_last());
        lemma_insertion_point(keys_of(rest), x.0);
        vstd::seq_lib::to_multiset_insert(rest, insertion_point(keys_of(rest), x.0), x);
        vstd::seq_lib::to_multiset_build(items.drop_last(), x);
        assert(items.drop_last().push(x) =~= items);
        let p = insertion_point(keys_of(rest), x.0);
        assert(sorted_by_key(items) == rest.insert(p, x));
        assert(rest.insert(p, x).to_multiset() == rest.to_multiset().insert(x));
        assert(items.to_multiset() == items.drop_last().to_multiset().insert(x));
    } else {
        assert(items =~= sorted_by_key(items));
    }
}

} // verus!
