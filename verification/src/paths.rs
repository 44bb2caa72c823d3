//! File names, extensions, sidecar files and free destination names.
//!
//! Paths are held as strings.  What the final component of a path is comes from
//! `std::path::Path::file_name`; the extension and the stem of that component
//! are computed here by the rule that `Path::extension` and `Path::file_stem`
//! document.
use vstd::prelude::*;
use crate::order::string_views;
use crate::text::{
    chars_eq, decimal, starts_with, digits_value, lemma_decimal_digits, eq_ignore_ascii_case, eq_ignore_ascii_case_chars, from_chars, push_chars, push_decimal,
    push_str, slice_chars, to_chars,
};

verus! {

/// What `Path::file_name` returns for a path, as text.
pub uninterp spec fn file_name_of(path: Seq<char>) -> Option<Seq<char>>;

/// What `PathBuf::set_extension` makes of a path.
pub uninterp spec fn with_extension_of(path: Seq<char>, ext: Seq<char>) -> Seq<char>;

/// Whether `std::path::is_separator` takes a character for a separator
/// between path components on the platform the library is built for.
pub uninterp spec fn separator_char(c: char) -> bool;

/// `std::path::is_separator`.  The contract claims that the result is the
/// value `separator_char` names, and what the `std::path` documentation says
/// of the separators: `/` is one on every platform, and the only other one,
/// on Windows, is `\`.
#[verifier::external_body]
fn path_is_separator(c: char) -> (r: bool)
    ensures
        r == separator_char(c),
        c == '/' ==> r,
        r ==> c == '/' || c == '\\',
{
    std::path::is_separator(c)
}

/// Whether no character of `s` is a path separator.
fn no_separators(s: &[char]) -> (r: bool)
    ensures
        r == (forall|i: int| 0 <= i < s@.len() ==> !separator_char(#[trigger] s@[i])),
        (forall|i: int| 0 <= i < s@.len() ==> #[trigger] s@[i] != '/' && s@[i] != '\\') ==> r,
{
    let mut i: usize = 0;
    while i < s.len()
        invariant
            i <= s.len(),
            forall|j: int| 0 <= j < i ==> !separator_char(#[trigger] s@[j]),
        decreases s.len() - i,
    {
        if path_is_separator(s[i]) {
            return false;
        }
        i = i + 1;
    }
    true
}

/// `Path::file_name`, converted to text.  The contract claims only that the
/// result is the value `file_name_of` names.
#[verifier::external_body]
fn path_file_name(path: &str) -> (r: Option<String>)
    ensures
        r.is_some() == file_name_of(path@).is_some(),
        r matches Some(n) ==> file_name_of(path@) == Some(n@),
{
    match std::path::Path::new(path).file_name() {
        Some(name) => match name.to_str() {
            Some(text) => Some(text.to_string()),
            None => None,
        },
        None => None,
    }
}

/// `path` reads `pre` followed by the file name `n` (and possibly trailing
/// separators or `.` components after it).
pub open spec fn name_at(path: Seq<char>, pre: Seq<char>, n: Seq<char>) -> bool {
    starts_with(path, pre + n)
}

/// `result` is `path` with its file name `n` replaced by `new_name`: the
/// part of `path` before the file name is kept.
pub open spec fn renamed_in_place(path: Seq<char>, n: Seq<char>, result: Seq<char>, new_name: Seq<
    char,
>) -> bool {
    exists|pre: Seq<char>| #[trigger] name_at(path, pre, n) && result == pre + new_name
}

/// `PathBuf::set_extension` on a copy of `path`.  The contract claims that the
/// result is the value `with_extension_of` names, and, as the documentation
/// says, that a path without a file name is left as it is and that a
/// non-empty extension, dots and all, follows the file stem after a `.`, the
/// path before the file name being kept.  An extension with a separator is not
/// passed, since the method panics on one.
#[verifier::external_body]
fn path_set_extension(path: &str, ext: &str) -> (r: String)
    requires
        forall|i: int| 0 <= i < ext@.len() ==> !separator_char(#[trigger] ext@[i]),
    ensures
        r@ == with_extension_of(path@, ext@),
        file_name_of(path@).is_none() ==> r@ == path@,
        ext@.len() > 0 ==> (file_name_of(path@) matches Some(n) ==> file_name_of(r@) == Some(
            stem_of_name(n) + "."@ + ext@,
        )),
        ext@.len() > 0 ==> (file_name_of(path@) matches Some(n) ==> renamed_in_place(
            path@,
            n,
            r@,
            stem_of_name(n) + "."@ + ext@,
        )),
{
    let mut buf = std::path::PathBuf::from(path);
    buf.set_extension(ext);
    buf.to_string_lossy().into_owned()
}

/// Index of the last `.` in a file name, or `-1` when it has none.
pub open spec fn last_dot(name: Seq<char>) -> int
    decreases name.len(),
{
    if name.len() == 0 {
        -1
    } else if name.last() == '.' {
        name.len() - 1
    } else {
        last_dot(name.drop_last())
    }
}

/// The extension of a file name: the text after its last `.`, unless it has no
/// `.` or its only `.` is the first character.
pub open spec fn extension_of_name(name: Seq<char>) -> Option<Seq<char>> {
    if last_dot(name) <= 0 {
        None
    } else {
        Some(name.skip(last_dot(name) + 1))
    }
}

/// The stem of a file name: the text before its last `.`, or the whole name
/// when it has no extension.
pub open spec fn stem_of_name(name: Seq<char>) -> Seq<char> {
    if last_dot(name) <= 0 {
        name
    } else {
        name.take(last_dot(name))
    }
}

/// `Path::extension`.
pub open spec fn path_extension(path: Seq<char>) -> Option<Seq<char>> {
    match file_name_of(path) {
        Some(name) => extension_of_name(name),
        None => None,
    }
}

/// `Path::file_stem`.
pub open spec fn path_stem(path: Seq<char>) -> Option<Seq<char>> {
    match file_name_of(path) {
        Some(name) => Some(stem_of_name(name)),
        None => None,
    }
}

/// The extension of a path, or the empty text when it has none.
pub open spec fn extension_text(path: Seq<char>) -> Seq<char> {
    match path_extension(path) {
        Some(e) => e,
        None => Seq::<char>::empty(),
    }
}

/// The sidecar file that sits beside `path`: its extension followed by
/// `.suffix`, or `suffix` alone when `path` has no extension.
pub open spec fn sidecar_path(path: Seq<char>, suffix: Seq<char>) -> Seq<char> {
    let ext = extension_text(path);
    if ext.len() == 0 {
        with_extension_of(path, suffix)
    } else {
        with_extension_of(path, ext + "."@ + suffix)
    }
}

/// The file name of the sidecar file `suffix` of a file called `name`: the
/// stem, then the extension if it has a non-empty one, then the suffix, each
/// after a `.`.
pub open spec fn sidecar_name(name: Seq<char>, suffix: Seq<char>) -> Seq<char> {
    match extension_of_name(name) {
        Some(e) => if e.len() > 0 {
            stem_of_name(name) + "."@ + e + "."@ + suffix
        } else {
            stem_of_name(name) + "."@ + suffix
        },
        None => stem_of_name(name) + "."@ + suffix,
    }
}

/// The `n`-th name tried for a file that is to land in a folder: the name
/// itself, then `stem_n.ext` for `n = 1, 2, ...`.
pub open spec fn unique_candidate(file_name: Seq<char>, n: nat) -> Seq<char> {
    if n == 0 {
        file_name
    } else {
        let stem = match path_stem(file_name) {
            Some(s) => s,
            None => "track"@,
        };
        let base = stem + "_"@ + decimal(n);
        match path_extension(file_name) {
            Some(e) => base + "."@ + e,
            None => base,
        }
    }
}

pub proof fn lemma_last_dot(name: Seq<char>)
    ensures
        -1 <= last_dot(name) < name.len(),
        last_dot(name) >= 0 ==> name[last_dot(name)] == '.',
        forall|j: int| last_dot(name) < j < name.len() ==> name[j] != '.',
    decreases name.len(),
{
    if name.len() > 0 && name.last() != '.' {
        lemma_last_dot(name.drop_last());
        assert forall|j: int| last_dot(name) < j < name.len() implies name[j] != '.' by {
            if j < name.len() - 1 {
                assert(name[j] == name.drop_last()[j]);
            }
        }
    }
}

/// Index of the last `.` in `name`, or `-1`.
fn last_dot_index(name: &[char]) -> (r: Option<usize>)
    ensures
        r matches Some(k) ==> k as int == last_dot(name@),
        r is None ==> last_dot(name@) == -1,
{
    let mut i: usize = name.len();
    assert(name@.take(i as int) =~= name@);
    while i > 0
        invariant
            i <= name.len(),
            last_dot(name@) == last_dot(name@.take(i as int)),
        decreases i,
    {
        assert(name@.take(i as int).drop_last() =~= name@.take(i - 1));
        if name[i - 1] == '.' {
            return Some(i - 1);
        }
        i = i - 1;
    }
    None
}

/// The extension of a file name.
pub fn name_extension(name: &[char]) -> (r: Option<Vec<char>>)
    ensures
        r.is_some() == extension_of_name(name@).is_some(),
        r matches Some(e) ==> extension_of_name(name@) == Some(e@),
{
    proof {
        lemma_last_dot(name@);
    }
    match last_dot_index(name) {
        Some(d) => {
            if d > 0 {
                assert(d < name.len());
                Some(slice_chars(name, d + 1, name.len()))
            } else {
                None
            }
        },
        None => None,
    }
}

/// The stem of a file name.
pub fn name_stem(name: &[char]) -> (r: Vec<char>)
    ensures
        r@ == stem_of_name(name@),
{
    proof {
        lemma_last_dot(name@);
    }
    match last_dot_index(name) {
        Some(d) if d > 0 => slice_chars(name, 0, d),
        _ => slice_chars(name, 0, name.len()),
    }
}

/// The final component of a path.
pub fn file_name(path: &str) -> (r: Option<Vec<char>>)
    ensures
        r.is_some() == file_name_of(path@).is_some(),
        r matches Some(n) ==> file_name_of(path@) == Some(n@),
{
    match path_file_name(path) {
        Some(n) => Some(to_chars(n.as_str())),
        None => None,
    }
}

/// `Path::extension` of a path.
pub fn path_extension_chars(path: &str) -> (r: Option<Vec<char>>)
    ensures
        r.is_some() == path_extension(path@).is_some(),
        r matches Some(e) ==> path_extension(path@) == Some(e@),
{
    match file_name(path) {
        Some(n) => name_extension(n.as_slice()),
        None => None,
    }
}

/// `Path::file_stem` of a path.
pub fn file_stem(path: &str) -> (r: Option<Vec<char>>)
    ensures
        r.is_some() == path_stem(path@).is_some(),
        r matches Some(s) ==> path_stem(path@) == Some(s@),
{
    match file_name(path) {
        Some(n) => Some(name_stem(n.as_slice())),
        None => None,
    }
}

/// The extension of a path, or the empty text when it has none.
pub fn extension(path: &str) -> (r: Vec<char>)
    ensures
        r@ == extension_text(path@),
{
    match path_extension_chars(path) {
        Some(e) => e,
        None => Vec::new(),
    }
}

/// Whether the extension of `path` is one of `extensions`, ignoring ASCII case.
pub fn has_extension(path: &str, extensions: &[&str]) -> (r: bool)
    ensures
        r == exists|i: int|
            0 <= i < extensions@.len() && eq_ignore_ascii_case(
                extension_text(path@),
                #[trigger] extensions@[i]@,
            ),
{
    let ext = extension(path);
    let mut i: usize = 0;
    while i < extensions.len()
        invariant
            i <= extensions.len(),
            ext@ == extension_text(path@),
            forall|j: int|
                0 <= j < i ==> !eq_ignore_ascii_case(ext@, #[trigger] extensions@[j]@),
        decreases extensions.len() - i,
    {
        let candidate = to_chars(extensions[i]);
        if eq_ignore_ascii_case_chars(ext.as_slice(), candidate.as_slice()) {
            return true;
        }
        i = i + 1;
    }
    false
}

/// The extension of `path` holds no path separator, so that it can be passed
/// on to `PathBuf::set_extension`, which panics on one.  (A file name can hold
/// one only in a Windows verbatim path, `\\?\...`.)
pub open spec fn plain_extension(path: Seq<char>) -> bool {
    forall|j: int|
        0 <= j < extension_text(path).len() ==> !separator_char(#[trigger] extension_text(path)[j])
}

/// Whether the extension of `path` holds no path separator (see
/// `plain_extension`).
pub fn has_plain_extension(path: &str) -> (r: bool)
    ensures
        r == plain_extension(path@),
{
    let e = extension(path);
    no_separators(e.as_slice())
}

/// The path of the sidecar file `path` + `.suffix` (see `sidecar_path`): the
/// same folder, and the file name given by `sidecar_name`.
fn sidecar_path_for(path: &str, suffix: &str) -> (r: String)
    requires
        plain_extension(path@),
        forall|i: int| 0 <= i < suffix@.len() ==> #[trigger] suffix@[i] != '/' && suffix@[i] != '\\',
        suffix@.len() > 0,
    ensures
        r@ == sidecar_path(path@, suffix@),
        file_name_of(path@) matches Some(n) ==> file_name_of(r@) == Some(sidecar_name(n, suffix@)),
        file_name_of(path@) matches Some(n) ==> renamed_in_place(
            path@,
            n,
            r@,
            sidecar_name(n, suffix@),
        ),
{
    let ext = extension(path);
    let mut dot_suffix = to_chars(".");
    let suffix_chars = to_chars(suffix);
    dot_suffix.extend_from_slice(suffix_chars.as_slice());
    proof {
        reveal_strlit(".");
        assert(dot_suffix@ =~= "."@ + suffix@);
        assert forall|i: int| 0 <= i < dot_suffix@.len() implies #[trigger] dot_suffix@[i] != '/'
            && dot_suffix@[i] != '\\' by {
            if i > 0 {
                assert(dot_suffix@[i] == suffix@[i - 1]);
            }
        }
    }
    // `set_extension` panics on a separator; these characters hold none.
    let clean = no_separators(dot_suffix.as_slice());
    assert(clean);
    assert forall|i: int| 0 <= i < suffix@.len() implies !separator_char(#[trigger] suffix@[i]) by {
        assert(suffix@[i] == dot_suffix@[i + 1]);
    }
    if ext.len() == 0 {
        let r = path_set_extension(path, suffix);
        proof {
            if let Some(n) = file_name_of(path@) {
                let pre = choose|pre: Seq<char>|
                    #[trigger] name_at(path@, pre, n) && r@ == pre + (stem_of_name(n) + "."@
                        + suffix@);
                assert(sidecar_name(n, suffix@) == stem_of_name(n) + "."@ + suffix@);
                assert(name_at(path@, pre, n));
            }
        }
        r
    } else {
        let mut full = from_chars(ext.as_slice());
        push_str(&mut full, ".");
        push_str(&mut full, suffix);
        assert(full@ =~= ext@ + "."@ + suffix@);
        assert forall|j: int| 0 <= j < full@.len() implies !separator_char(#[trigger] full@[j]) by {
            if j < ext@.len() {
                assert(full@[j] == ext@[j]);
            } else {
                assert(full@[j] == dot_suffix@[j - ext@.len()]);
            }
        }
        let r = path_set_extension(path, full.as_str());
        proof {
            if let Some(n) = file_name_of(path@) {
                assert(stem_of_name(n) + "."@ + full@ =~= stem_of_name(n) + "."@ + ext@ + "."@
                    + suffix@);
                let pre = choose|pre: Seq<char>|
                    #[trigger] name_at(path@, pre, n) && r@ == pre + (stem_of_name(n) + "."@
                        + full@);
                assert(sidecar_name(n, suffix@) =~= stem_of_name(n) + "."@ + full@);
                assert(name_at(path@, pre, n));
            }
        }
        r
    }
}

/// The file that holds the loudness correction measured for an audio file.
pub fn gain_sidecar_path(path: &str) -> (r: String)
    requires
        plain_extension(path@),
    ensures
        r@ == sidecar_path(path@, "gain"@),
        file_name_of(path@) matches Some(n) ==> file_name_of(r@) == Some(
            sidecar_name(n, "gain"@),
        ),
        file_name_of(path@) matches Some(n) ==> renamed_in_place(
            path@,
            n,
            r@,
            sidecar_name(n, "gain"@),
        ),
{
    proof {
        reveal_strlit("gain");
    }
    sidecar_path_for(path, "gain")
}

/// The file that holds the delay between a video and its audio.
pub fn video_offset_sidecar_path(path: &str) -> (r: String)
    requires
        plain_extension(path@),
    ensures
        r@ == sidecar_path(path@, "videooffset"@),
        file_name_of(path@) matches Some(n) ==> file_name_of(r@) == Some(
            sidecar_name(n, "videooffset"@),
        ),
        file_name_of(path@) matches Some(n) ==> renamed_in_place(
            path@,
            n,
            r@,
            sidecar_name(n, "videooffset"@),
        ),
{
    proof {
        reveal_strlit("videooffset");
    }
    sidecar_path_for(path, "videooffset")
}

/// The sidecar file of `path` that holds the loudness correction (see
/// `gain_sidecar_path`), or nothing when the extension of `path` holds a path
/// separator, which `PathBuf::set_extension` refuses.
pub fn try_gain_sidecar_path(path: &str) -> (r: Option<String>)
    ensures
        r is Some == plain_extension(path@),
        r matches Some(p) ==> p@ == sidecar_path(path@, "gain"@),
        r matches Some(p) ==> (file_name_of(path@) matches Some(n) ==> renamed_in_place(
            path@,
            n,
            p@,
            sidecar_name(n, "gain"@),
        )),
{
    if has_plain_extension(path) {
        Some(gain_sidecar_path(path))
    } else {
        None
    }
}

/// The sidecar file of `path` that holds the video delay (see
/// `video_offset_sidecar_path`), or nothing when the extension of `path`
/// holds a path separator, which `PathBuf::set_extension` refuses.
pub fn try_video_offset_sidecar_path(path: &str) -> (r: Option<String>)
    ensures
        r is Some == plain_extension(path@),
        r matches Some(p) ==> p@ == sidecar_path(path@, "videooffset"@),
        r matches Some(p) ==> (file_name_of(path@) matches Some(n) ==> renamed_in_place(
            path@,
            n,
            p@,
            sidecar_name(n, "videooffset"@),
        )),
{
    if has_plain_extension(path) {
        Some(video_offset_sidecar_path(path))
    } else {
        None
    }
}

/// The `n`-th name tried when `file_name` is to be placed in a folder that may
/// already hold a file of that name.
pub fn unique_dest_candidate(file_name: &str, n: usize) -> (r: String)
    ensures
        r@ == unique_candidate(file_name@, n as nat),
{
    if n == 0 {
        return file_name.to_owned();
    }
    let mut r = match file_stem(file_name) {
        Some(s) => from_chars(s.as_slice()),
        None => "track".to_owned(),
    };
    push_str(&mut r, "_");
    push_decimal(&mut r, n as u64);
    match path_extension_chars(file_name) {
        Some(e) => {
            push_str(&mut r, ".");
            push_chars(&mut r, e.as_slice());
        },
        None => {},
    }
    r
}

/// Different tries give different names, so that looking for a free name
/// moves on to a new one each time.
pub proof fn lemma_unique_candidates_differ(file_name: Seq<char>, n: nat, m: nat)
    requires
        n >= 1,
        m >= 1,
        n != m,
    ensures
        unique_candidate(file_name, n) != unique_candidate(file_name, m),
{
    let stem = match path_stem(file_name) {
        Some(s) => s,
        None => "track"@,
    };
    let pre = stem + "_"@;
    let tail = match path_extension(file_name) {
        Some(e) => "."@ + e,
        None => Seq::<char>::empty(),
    };
    assert(unique_candidate(file_name, n) =~= pre + decimal(n) + tail);
    assert(unique_candidate(file_name, m) =~= pre + decimal(m) + tail);
    lemma_decimal_digits(n);
    lemma_decimal_digits(m);
    if unique_candidate(file_name, n) == unique_candidate(file_name, m) {
        let a = pre + decimal(n) + tail;
        let b = pre + decimal(m) + tail;
        assert(a.len() == b.len());
        assert(decimal(n).len() == decimal(m).len());
        assert(decimal(n) =~= a.subrange(pre.len() as int, pre.len() as int + decimal(n).len() as int));
        assert(decimal(m) =~= b.subrange(pre.len() as int, pre.len() as int + decimal(m).len() as int));
        assert(digits_value(decimal(n)) == digits_value(decimal(m)));
    }
}

/// `n` is the first try for `file_name` whose name is not among `taken`.
pub open spec fn is_first_free(file_name: Seq<char>, taken: Seq<Seq<char>>, n: nat) -> bool {
    &&& !taken.contains(unique_candidate(file_name, n))
    &&& forall|m: nat| m < n ==> taken.contains(#[trigger] unique_candidate(file_name, m))
}

/// The tries `1..=n` for `file_name` cannot all be taken by fewer than `n`
/// names.
proof fn lemma_taken_tries_bound(file_name: Seq<char>, taken: Seq<Seq<char>>, n: nat)
    requires
        forall|m: nat| 1 <= m <= n ==> taken.contains(#[trigger] unique_candidate(file_name, m)),
    ensures
        n <= taken.len(),
{
    let tries = Seq::new(n, |i: int| unique_candidate(file_name, (i + 1) as nat));
    assert(tries.no_duplicates()) by {
        assert forall|i: int, j: int| 0 <= i < tries.len() && 0 <= j < tries.len() && i != j implies
            tries[i] != tries[j] by {
            lemma_unique_candidates_differ(file_name, (i + 1) as nat, (j + 1) as nat);
        }
    }
    tries.unique_seq_to_set();
    taken.lemma_cardinality_of_set();
    assert(tries.to_set().subset_of(taken.to_set())) by {
        assert forall|x: Seq<char>| tries.to_set().contains(x) implies taken.to_set().contains(x) by {
            let i = choose|i: int| 0 <= i < tries.len() && tries[i] == x;
            assert(taken.contains(unique_candidate(file_name, (i + 1) as nat)));
        }
    }
    vstd::seq_lib::seq_to_set_is_finite(taken);
    vstd::set_lib::lemma_len_subset(tries.to_set(), taken.to_set());
}

/// Whether `s` is one of `names`.
fn is_among(names: &Vec<String>, s: &str) -> (r: bool)
    ensures
        r == string_views(names@).contains(s@),
{
    let sc = to_chars(s);
    let mut i: usize = 0;
    while i < names.len()
        invariant
            i <= names.len(),
            sc@ == s@,
            forall|j: int| 0 <= j < i ==> names@[j]@ != s@,
        decreases names.len() - i,
    {
        let nc = to_chars(names[i].as_str());
        if chars_eq(nc.as_slice(), sc.as_slice()) {
            assert(string_views(names@)[i as int] == s@);
            return true;
        }
        i = i + 1;
    }
    assert forall|j: int| 0 <= j < string_views(names@).len() implies string_views(names@)[j]
        != s@ by {
        assert(string_views(names@)[j] == names@[j]@);
    }
    false
}

/// The name `file_name` lands under in a folder that already holds the files
/// called `taken`: the first try (see `unique_candidate`) that is free.  (No
/// list of strings can hold `usize::MAX` of them.)
pub fn first_free_name(file_name: &str, taken: &Vec<String>) -> (r: String)
    requires
        taken@.len() < usize::MAX,
    ensures
        exists|n: nat|
            #[trigger] is_first_free(file_name@, string_views(taken@), n) && r@ == unique_candidate(
                file_name@,
                n,
            ),
{
    let ghost tv = string_views(taken@);
    let mut n: usize = 0;
    loop
        invariant
            tv == string_views(taken@),
            taken@.len() < usize::MAX,
            n <= taken.len() + 1,
            forall|m: nat| m < n ==> tv.contains(#[trigger] unique_candidate(file_name@, m)),
        decreases taken.len() + 1 - n,
    {
        let candidate = unique_dest_candidate(file_name, n);
        if !is_among(taken, candidate.as_str()) {
            assert(is_first_free(file_name@, tv, n as nat));
            return candidate;
        }
        proof {
            assert forall|m: nat| 1 <= m <= n implies tv.contains(
                #[trigger] unique_candidate(file_name@, m),
            ) by {
                if m < n {
                    assert(tv.contains(unique_candidate(file_name@, m)));
                }
            }
            lemma_taken_tries_bound(file_name@, tv, n as nat);
            assert(tv.len() == taken.len());
        }
        n = n + 1;
    }
}

} // verus!
