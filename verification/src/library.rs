//! The rules of the song library: which files are songs, what a song is
//! called, which files belong to it, and what a file is renamed to when a
//! downloaded beatmap folder is flattened into the library.
use vstd::prelude::*;
use crate::order::{
    lemma_insert_by_split, path_name_le, sort_by, sort_by_file_name, string_views,
    text_le, text_le_chars,
};
use crate::audio_server::{offset_of, video_offset_ms, AudioServer};
use crate::clock::{nanos_of, since_unix_epoch};
use crate::osu::{extract_background, osu_background, osu_metadata, parse_osu_metadata};
use crate::paths::{
    extension, extension_of_name, extension_text, file_name, file_name_of, file_stem,
    name_extension, name_stem, path_stem, sidecar_name, stem_of_name,
};
use crate::text::{
    all_digits, all_digits_chars, chars_eq, chars_eq_str, contains, contains_chars, contains_str,
    decimal,
    ends_with, eq_ignore_ascii_case, eq_ignore_ascii_case_chars, parse_u64_chars, parse_unsigned,
    push_decimal,
    ends_with_str, from_chars, is_digit, is_digit_char, is_white_space, lemma_decimal_digits,
    push_signed_decimal,
    signed_decimal, join, join_chars, lower_ascii_chars,
    lower_ascii_seq, parse_i64, parse_i64_chars, push_chars, push_str, slice_chars,
    split_words, starts_with, starts_with_chars, starts_with_str, to_chars, trim, trim_chars,
    trim_start, trim_start_chars, views, words, to_lowercase, unicode_lowercase,
};

verus! {

// ---------------------------------------------------------------------------
// File kinds
// ---------------------------------------------------------------------------

/// Extensions of audio files, in lower case.
pub open spec fn is_audio_ext(e: Seq<char>) -> bool {
    e == "mp3"@ || e == "ogg"@ || e == "wav"@ || e == "flac"@ || e == "m4a"@ || e == "aac"@
}

/// Extensions of images, in lower case.
pub open spec fn is_image_ext(e: Seq<char>) -> bool {
    e == "jpg"@ || e == "jpeg"@ || e == "png"@ || e == "webp"@
}

/// Extensions of videos, in lower case.
pub open spec fn is_video_ext(e: Seq<char>) -> bool {
    e == "avi"@ || e == "mp4"@ || e == "webm"@ || e == "flv"@ || e == "m4v"@
}

pub fn is_audio_ext_chars(e: &[char]) -> (r: bool)
    ensures
        r == is_audio_ext(e@),
{
    chars_eq_str(e, "mp3") || chars_eq_str(e, "ogg") || chars_eq_str(e, "wav") || chars_eq_str(
        e,
        "flac",
    ) || chars_eq_str(e, "m4a") || chars_eq_str(e, "aac")
}

pub fn is_image_ext_chars(e: &[char]) -> (r: bool)
    ensures
        r == is_image_ext(e@),
{
    chars_eq_str(e, "jpg") || chars_eq_str(e, "jpeg") || chars_eq_str(e, "png") || chars_eq_str(
        e,
        "webp",
    )
}

pub fn is_video_ext_chars(e: &[char]) -> (r: bool)
    ensures
        r == is_video_ext(e@),
{
    chars_eq_str(e, "avi") || chars_eq_str(e, "mp4") || chars_eq_str(e, "webm") || chars_eq_str(
        e,
        "flv",
    ) || chars_eq_str(e, "m4v")
}

/// The extension of a path in ASCII lower case.
pub open spec fn lower_ext(path: Seq<char>) -> Seq<char> {
    lower_ascii_seq(extension_text(path))
}

pub fn lower_extension(path: &str) -> (r: Vec<char>)
    ensures
        r@ == lower_ext(path@),
{
    let e = extension(path);
    lower_ascii_chars(e.as_slice())
}

// ---------------------------------------------------------------------------
// Names
// ---------------------------------------------------------------------------

/// Number of ASCII digits that `s` starts with.
pub open spec fn leading_digits(s: Seq<char>) -> nat
    decreases s.len(),
{
    if s.len() > 0 && is_digit(s[0]) {
        1 + leading_digits(s.drop_first())
    } else {
        0
    }
}

/// The title of a song file: its stem, without a leading track number and the
/// white space after it (a stem that is all digits stays as it is).
pub open spec fn song_title(name: Seq<char>) -> Seq<char> {
    let stem = match path_stem(name) {
        Some(s) => s,
        None => name,
    };
    let k = leading_digits(stem);
    if k == 0 || k == stem.len() {
        stem
    } else {
        trim_start(stem.skip(k as int))
    }
}

proof fn lemma_leading_digits(s: Seq<char>, k: int)
    requires
        0 <= k <= s.len(),
        forall|j: int| 0 <= j < k ==> is_digit(s[j]),
        k < s.len() ==> !is_digit(s[k]),
    ensures
        leading_digits(s) == k,
    decreases k,
{
    if k > 0 {
        lemma_leading_digits(s.drop_first(), k - 1);
    }
}

/// The title shown for a song file.
pub fn extract_song_title(name: &str) -> (r: String)
    ensures
        r@ == song_title(name@),
{
    let stem = match file_stem(name) {
        Some(s) => s,
        None => to_chars(name),
    };
    let mut k: usize = 0;
    while k < stem.len() && is_digit_char(stem[k])
        invariant
            k <= stem.len(),
            forall|j: int| 0 <= j < k ==> is_digit(stem@[j]),
        decreases stem.len() - k,
    {
        k = k + 1;
    }
    proof {
        lemma_leading_digits(stem@, k as int);
    }
    if k == 0 || k == stem.len() {
        return from_chars(stem.as_slice());
    }
    let rest = slice_chars(stem.as_slice(), k, stem.len());
    assert(rest@ =~= stem@.skip(k as int));
    let t = trim_start_chars(rest.as_slice());
    from_chars(t.as_slice())
}

/// Whether a file name belongs to a beatmap's hit sounds rather than to its
/// song.
pub open spec fn hitsound_name(name: Seq<char>) -> bool {
    let n = lower_ascii_seq(name);
    ||| contains(n, "hitnormal"@)
    ||| contains(n, "hitwhistle"@)
    ||| contains(n, "hitfinish"@)
    ||| contains(n, "hitclap"@)
    ||| contains(n, "hitmiss"@)
    ||| contains(n, "slidertick"@)
    ||| contains(n, "sliderslide"@)
    ||| contains(n, "sliderwhistle"@)
    ||| contains(n, "combobreak"@)
    ||| contains(n, "applause"@)
    ||| contains(n, "failsound"@)
    ||| contains(n, "spinnerbonus"@)
    ||| contains(n, "spinnerspin"@)
    ||| starts_with(n, "count"@)
    ||| starts_with(n, "drum-"@)
    ||| starts_with(n, "normal-"@)
    ||| starts_with(n, "soft-"@)
}

fn hitsound_chars(name: &[char]) -> (r: bool)
    ensures
        r == hitsound_name(name@),
{
    let n = lower_ascii_chars(name);
    let s = n.as_slice();
    contains_str(s, "hitnormal") || contains_str(s, "hitwhistle") || contains_str(s, "hitfinish")
        || contains_str(s, "hitclap") || contains_str(s, "hitmiss") || contains_str(
        s,
        "slidertick",
    ) || contains_str(s, "sliderslide") || contains_str(s, "sliderwhistle") || contains_str(
        s,
        "combobreak",
    ) || contains_str(s, "applause") || contains_str(s, "failsound") || contains_str(
        s,
        "spinnerbonus",
    ) || contains_str(s, "spinnerspin") || starts_with_str(s, "count") || starts_with_str(
        s,
        "drum-",
    ) || starts_with_str(s, "normal-") || starts_with_str(s, "soft-")
}

/// Whether a file name is one of a beatmap's hit sounds.
pub fn is_hitsound_name(name: &str) -> (r: bool)
    ensures
        r == hitsound_name(name@),
{
    let chars = to_chars(name);
    hitsound_chars(chars.as_slice())
}

/// A beatmap folder's name without the numeric id it starts with; the words of
/// the rest are joined by single spaces.
pub open spec fn clean_folder(name: Seq<char>) -> Seq<char> {
    let ws = words(name);
    if ws.len() > 0 && all_digits(ws[0]) {
        join(ws.drop_first(), " "@)
    } else {
        name
    }
}

pub fn clean_folder_name(name: &str) -> (r: String)
    ensures
        r@ == clean_folder(name@),
{
    let chars = to_chars(name);
    let ws = split_words(chars.as_slice());
    if ws.len() > 0 && all_digits_chars(ws[0].as_slice()) {
        let mut rest: Vec<Vec<char>> = Vec::new();
        let mut i: usize = 1;
        while i < ws.len()
            invariant
                1 <= i <= ws.len(),
                views(rest@) =~= views(ws@).subrange(1, i as int),
            decreases ws.len() - i,
        {
            let ghost before = rest@;
            let w = slice_chars(ws[i].as_slice(), 0, ws[i].len());
            rest.push(w);
            assert(views(rest@) =~= views(before).push(w@));
            assert(views(ws@).subrange(1, i + 1) =~= views(ws@).subrange(1, i as int).push(ws@[i as int]@));
            assert(ws[i as int]@.subrange(0, ws[i as int]@.len() as int) =~= ws[i as int]@);
            i = i + 1;
        }
        assert(views(ws@).drop_first() =~= views(ws@).subrange(1, ws.len() as int));
        let sep = to_chars(" ");
        let joined = join_chars(&rest, sep.as_slice());
        from_chars(joined.as_slice())
    } else {
        from_chars(chars.as_slice())
    }
}

/// The character a file name may hold in place of `c`.
pub open spec fn safe_char(c: char) -> char {
    if c == '<' || c == '>' || c == ':' || c == '"' || c == '/' || c == '\\' || c == '|' || c
        == '?' || c == '*' || (c as u32) < 0x20 {
        '_'
    } else {
        c
    }
}

/// `s` without the dots and spaces at its end.
pub open spec fn trim_end_dots_spaces(s: Seq<char>) -> Seq<char>
    decreases s.len(),
{
    if s.len() > 0 && (s.last() == '.' || s.last() == ' ') {
        trim_end_dots_spaces(s.drop_last())
    } else {
        s
    }
}

/// A name that can be used as a file name: reserved characters and control
/// characters become `_`, trailing dots and spaces go, and an empty result
/// becomes `track`.
pub open spec fn sanitized(name: Seq<char>) -> Seq<char> {
    let t = trim_end_dots_spaces(Seq::new(name.len(), |i: int| safe_char(name[i])));
    if t.len() == 0 {
        "track"@
    } else {
        t
    }
}

fn safe_char_of(c: char) -> (r: char)
    ensures
        r == safe_char(c),
{
    if c == '<' || c == '>' || c == ':' || c == '"' || c == '/' || c == '\\' || c == '|' || c
        == '?' || c == '*' || (c as u32) < 0x20 {
        '_'
    } else {
        c
    }
}

pub fn sanitize_filename(name: &str) -> (r: String)
    ensures
        r@ == sanitized(name@),
{
    let chars = to_chars(name);
    let ghost mapped = Seq::new(name@.len(), |i: int| safe_char(name@[i]));
    let mut out: Vec<char> = Vec::new();
    let mut i: usize = 0;
    while i < chars.len()
        invariant
            chars@ == name@,
            mapped == Seq::new(name@.len(), |i: int| safe_char(name@[i])),
            i <= chars.len(),
            out@ =~= mapped.take(i as int),
        decreases chars.len() - i,
    {
        let ghost before = out@;
        out.push(safe_char_of(chars[i]));
        assert(mapped[i as int] == safe_char(chars@[i as int]));
        assert(mapped.take(i + 1) =~= mapped.take(i as int).push(mapped[i as int]));
        i = i + 1;
    }
    assert(mapped.take(chars.len() as int) =~= mapped);
    let mut k: usize = out.len();
    assert(out@.take(k as int) =~= out@);
    while k > 0 && (out[k - 1] == '.' || out[k - 1] == ' ')
        invariant
            k <= out.len(),
            trim_end_dots_spaces(mapped) == trim_end_dots_spaces(out@.take(k as int)),
            out@ == mapped,
        decreases k,
    {
        assert(out@.take(k as int).drop_last() =~= out@.take(k - 1));
        k = k - 1;
    }
    if k == 0 {
        assert(trim_end_dots_spaces(mapped).len() == 0);
        return "track".to_owned();
    }
    let t = slice_chars(out.as_slice(), 0, k);
    assert(t@ =~= out@.take(k as int));
    from_chars(t.as_slice())
}

/// The video offset written in a sidecar file's text, or zero when it does not
/// read as a number.
pub open spec fn offset_in_text(text: Seq<char>) -> int {
    match parse_i64(trim(text)) {
        Some(v) => v,
        None => 0,
    }
}

pub fn video_offset_from_text(text: &str) -> (r: i64)
    ensures
        r as int == offset_in_text(text@),
{
    let chars = to_chars(text);
    let t = trim_chars(chars.as_slice());
    match parse_i64_chars(t.as_slice()) {
        Some(v) => v,
        None => 0,
    }
}

/// The text of a video offset sidecar file: the offset in decimal.
pub fn video_offset_text(offset_ms: i64) -> (r: String)
    ensures
        r@ == signed_decimal(offset_ms as int),
{
    let mut r = String::new();
    push_signed_decimal(&mut r, offset_ms);
    r
}

proof fn lemma_trim_unpadded(s: Seq<char>)
    requires
        s.len() > 0,
        !is_white_space(s[0]),
        !is_white_space(s.last()),
    ensures
        trim(s) == s,
{
}

/// Reading a video offset sidecar file gives back the offset that was
/// written to it.
pub proof fn lemma_video_offset_round_trip(offset_ms: i64)
    ensures
        offset_in_text(signed_decimal(offset_ms as int)) == offset_ms,
{
    let v = offset_ms as int;
    let t = signed_decimal(v);
    if v < 0 {
        let m = (-v) as nat;
        lemma_decimal_digits(m);
        let d = decimal(m);
        assert(t =~= seq!['-'] + d);
        assert(t.last() == d.last());
        assert(is_digit(d[d.len() - 1]));
        lemma_trim_unpadded(t);
        assert(t.drop_first() =~= d);
    } else {
        lemma_decimal_digits(v as nat);
        crate::text::lemma_parse_decimal(v as nat, 0x7fff_ffff_ffff_ffff);
        assert(is_digit(t[0]));
        assert(is_digit(t[t.len() - 1]));
        lemma_trim_unpadded(t);
    }
}

// ---------------------------------------------------------------------------
// Scanning the song folder
// ---------------------------------------------------------------------------

/// What a rescan does with a file of the song folder.
#[derive(Debug, PartialEq, Eq)]
pub enum SongFile {
    /// A video in a format the player cannot show: converted to WebM.
    ConvertVideo,
    /// Not a song.
    Skip,
    /// A song, with its title.
    Audio(String),
}

/// Extensions of videos that a rescan converts.
pub open spec fn is_convertible_video_ext(e: Seq<char>) -> bool {
    e == "avi"@ || e == "mp4"@ || e == "flv"@ || e == "m4v"@
}

/// The title a rescan gives a song file.
pub open spec fn song_file_title(path: Seq<char>) -> Seq<char> {
    song_title(
        match file_name_of(path) {
            Some(n) => n,
            None => "Audio"@,
        },
    )
}

/// Whether a rescan takes a file as a song.
pub open spec fn is_song_file(path: Seq<char>) -> bool {
    let e = lower_ext(path);
    &&& !is_convertible_video_ext(e)
    &&& is_audio_ext(e)
    &&& !(path_stem(path) matches Some(s) && hitsound_name(s))
}

/// Decides what a rescan does with one file of the song folder.
pub fn classify_song_file(path: &str) -> (r: SongFile)
    ensures
        (r is ConvertVideo) == is_convertible_video_ext(lower_ext(path@)),
        (r is Audio) == is_song_file(path@),
        r matches SongFile::Audio(t) ==> t@ == song_file_title(path@),
{
    let e = lower_extension(path);
    if chars_eq_str(e.as_slice(), "avi") || chars_eq_str(e.as_slice(), "mp4") || chars_eq_str(
        e.as_slice(),
        "flv",
    ) || chars_eq_str(e.as_slice(), "m4v") {
        return SongFile::ConvertVideo;
    }
    if !is_audio_ext_chars(e.as_slice()) {
        return SongFile::Skip;
    }
    match file_stem(path) {
        Some(s) => {
            if hitsound_chars(s.as_slice()) {
                return SongFile::Skip;
            }
        },
        None => {},
    }
    let name = match file_name(path) {
        Some(n) => from_chars(n.as_slice()),
        None => "Audio".to_owned(),
    };
    SongFile::Audio(extract_song_title(name.as_str()))
}

// ---------------------------------------------------------------------------
// Deleting a track
// ---------------------------------------------------------------------------

/// Whether a sidecar file (`.gain`, `.videooffset`) belongs to the track whose
/// stem is `sl` (both in ASCII lower case).
pub open spec fn is_track_sidecar(sl: Seq<char>, fl: Seq<char>) -> bool {
    exists|suffix: Seq<char>|
        (suffix == ".gain"@ || suffix == ".videooffset"@) && #[trigger] ends_with(fl, suffix) && {
            let base = fl.take(fl.len() - suffix.len());
            base == sl || starts_with(base, sl + "."@) || starts_with(base, sl + "_"@)
        }
}

/// Whether a media file belongs to the track whose stem is `sl` (both in ASCII
/// lower case): its name is the stem followed by nothing, by `.`, or by `_` and
/// digits, and it ends in a media extension.
pub open spec fn is_track_media(sl: Seq<char>, fl: Seq<char>) -> bool {
    let is_media = ends_with(fl, "mp3"@) || ends_with(fl, "ogg"@) || ends_with(fl, "wav"@)
        || ends_with(fl, "flac"@) || ends_with(fl, "m4a"@) || ends_with(fl, "aac"@) || ends_with(
        fl,
        "jpg"@,
    ) || ends_with(fl, "jpeg"@) || ends_with(fl, "png"@) || ends_with(fl, "webp"@) || ends_with(
        fl,
        "mp4"@,
    ) || ends_with(fl, "webm"@) || ends_with(fl, "avi"@) || ends_with(fl, "flv"@);
    let rest = fl.skip(sl.len() as int);
    is_media && starts_with(fl, sl) && (rest.len() == 0 || rest[0] == '.' || (rest[0] == '_'
        && all_digits(rest.skip(1))))
}

/// Whether deleting the track stored at `track_path` deletes the file
/// `file_name` that sits beside it.
pub open spec fn deleted_with_track(track_path: Seq<char>, file_name: Seq<char>) -> bool {
    match path_stem(track_path) {
        Some(stem) => {
            let sl = lower_ascii_seq(stem);
            let fl = lower_ascii_seq(file_name);
            is_track_sidecar(sl, fl) || is_track_media(sl, fl)
        },
        None => false,
    }
}

fn sidecar_base_matches(sl: &[char], fl: &[char], suffix: &str) -> (r: bool)
    ensures
        r == (ends_with(fl@, suffix@) && {
            let base = fl@.take(fl@.len() - suffix@.len());
            base == sl@ || starts_with(base, sl@ + "."@) || starts_with(base, sl@ + "_"@)
        }),
{
    let sfx = to_chars(suffix);
    if !ends_with_str(fl, suffix) {
        return false;
    }
    let base = slice_chars(fl, 0, fl.len() - sfx.len());
    assert(base@ =~= fl@.take(fl@.len() - suffix@.len()));
    let mut dot = slice_chars(sl, 0, sl.len());
    dot.push('.');
    let mut under = slice_chars(sl, 0, sl.len());
    under.push('_');
    proof {
        reveal_strlit(".");
        reveal_strlit("_");
        assert(dot@ =~= sl@ + "."@);
        assert(under@ =~= sl@ + "_"@);
    }
    chars_eq(base.as_slice(), sl) || starts_with_chars(base.as_slice(), dot.as_slice())
        || starts_with_chars(base.as_slice(), under.as_slice())
}

/// Whether deleting the track stored at `track_path` also deletes the file
/// called `file_name` in the same folder: its sidecar files, and the audio,
/// images and video named like it (see `deleted_with_track`).
pub fn is_track_file(track_path: &str, file_name: &str) -> (r: bool)
    ensures
        r == deleted_with_track(track_path@, file_name@),
{
    let stem = match file_stem(track_path) {
        Some(s) => s,
        None => return false,
    };
    let sl = lower_ascii_chars(stem.as_slice());
    let raw = to_chars(file_name);
    let fl = lower_ascii_chars(raw.as_slice());
    let gain = sidecar_base_matches(sl.as_slice(), fl.as_slice(), ".gain");
    let offset = sidecar_base_matches(sl.as_slice(), fl.as_slice(), ".videooffset");
    let sidecar = gain || offset;
    assert(sidecar == is_track_sidecar(sl@, fl@)) by {
        if gain {
            assert(ends_with(fl@, ".gain"@));
        }
        if offset {
            assert(ends_with(fl@, ".videooffset"@));
        }
    }
    if sidecar {
        return true;
    }
    let f = fl.as_slice();
    let is_media = ends_with_str(f, "mp3") || ends_with_str(f, "ogg") || ends_with_str(f, "wav")
        || ends_with_str(f, "flac") || ends_with_str(f, "m4a") || ends_with_str(f, "aac")
        || ends_with_str(f, "jpg") || ends_with_str(f, "jpeg") || ends_with_str(f, "png")
        || ends_with_str(f, "webp") || ends_with_str(f, "mp4") || ends_with_str(f, "webm")
        || ends_with_str(f, "avi") || ends_with_str(f, "flv");
    if !is_media || !starts_with_chars(f, sl.as_slice()) {
        return false;
    }
    let rest = slice_chars(f, sl.len(), f.len());
    assert(rest@ =~= fl@.skip(sl@.len() as int));
    if rest.len() == 0 || rest[0] == '.' {
        return true;
    }
    if rest[0] == '_' {
        let digits = slice_chars(rest.as_slice(), 1, rest.len());
        assert(digits@ =~= rest@.skip(1));
        return all_digits_chars(digits.as_slice());
    }
    false
}

// ---------------------------------------------------------------------------
// Choosing cover images
// ---------------------------------------------------------------------------

/// Index of the first element of `s` that satisfies `f`, or `s.len()`.
pub open spec fn first_where(s: Seq<Seq<char>>, f: spec_fn(Seq<char>) -> bool) -> int
    decreases s.len(),
{
    if s.len() == 0 {
        0
    } else if f(s[0]) {
        0
    } else {
        1 + first_where(s.drop_first(), f)
    }
}

/// The elements of `s` that satisfy `f`, in order.
pub open spec fn keep(s: Seq<Seq<char>>, f: spec_fn(Seq<char>) -> bool) -> Seq<Seq<char>>
    decreases s.len(),
{
    if s.len() == 0 {
        s
    } else if f(s.last()) {
        keep(s.drop_last(), f).push(s.last())
    } else {
        keep(s.drop_last(), f)
    }
}

pub proof fn lemma_first_where(s: Seq<Seq<char>>, f: spec_fn(Seq<char>) -> bool, k: int)
    requires
        0 <= k <= s.len(),
        forall|j: int| 0 <= j < k ==> !f(#[trigger] s[j]),
        k < s.len() ==> f(s[k]),
    ensures
        first_where(s, f) == k,
    decreases k,
{
    if k > 0 {
        lemma_first_where(s.drop_first(), f, k - 1);
    }
}

/// A path whose extension is `jpg` or `jpeg`, in any ASCII case.
pub open spec fn is_jpg_path(p: Seq<char>) -> bool {
    eq_ignore_ascii_case(extension_text(p), "jpg"@) || eq_ignore_ascii_case(
        extension_text(p),
        "jpeg"@,
    )
}

/// A path whose extension is `png` or `webp`, in any ASCII case.
pub open spec fn is_png_or_webp_path(p: Seq<char>) -> bool {
    eq_ignore_ascii_case(extension_text(p), "png"@) || eq_ignore_ascii_case(
        extension_text(p),
        "webp"@,
    )
}

/// A path whose file name is `name`, ignoring ASCII case.
pub open spec fn is_named(p: Seq<char>, name: Seq<char>) -> bool {
    match file_name_of(p) {
        Some(n) => eq_ignore_ascii_case(n, name),
        None => false,
    }
}

pub open spec fn jpg_pred() -> spec_fn(Seq<char>) -> bool {
    |p: Seq<char>| is_jpg_path(p)
}

pub open spec fn png_or_webp_pred() -> spec_fn(Seq<char>) -> bool {
    |p: Seq<char>| is_png_or_webp_path(p)
}

pub open spec fn named_pred(name: Seq<char>) -> spec_fn(Seq<char>) -> bool {
    |p: Seq<char>| is_named(p, name)
}

pub open spec fn named_png_or_webp_pred(name: Seq<char>) -> spec_fn(Seq<char>) -> bool {
    |p: Seq<char>| is_named(p, name) && is_png_or_webp_path(p)
}

/// The cover images of a song made from a beatmap folder.  With a video there
/// is at most one: the image the beatmap names as background, else the first
/// JPEG by name, else the first PNG or WebP by name.  Without a video all
/// JPEGs are kept, sorted by name with the background moved to the front; with
/// no JPEG, the PNG or WebP background, else the first PNG or WebP.
pub open spec fn chosen_images(
    images: Seq<Seq<char>>,
    background: Option<Seq<char>>,
    has_video: bool,
) -> Seq<Seq<char>> {
    let jpgs = sort_by(keep(images, jpg_pred()), path_name_le());
    if has_video {
        let m = match background {
            Some(b) => first_where(images, named_pred(b)),
            None => images.len() as int,
        };
        if m < images.len() {
            seq![images[m]]
        } else if jpgs.len() > 0 {
            seq![jpgs[0]]
        } else {
            let sorted = sort_by(images, path_name_le());
            let k = first_where(sorted, png_or_webp_pred());
            if k < sorted.len() {
                seq![sorted[k]]
            } else {
                Seq::<Seq<char>>::empty()
            }
        }
    } else if jpgs.len() > 0 {
        let pos = match background {
            Some(b) => first_where(jpgs, named_pred(b)),
            None => jpgs.len() as int,
        };
        if pos < jpgs.len() {
            jpgs.update(0, jpgs[pos]).update(pos, jpgs[0])
        } else {
            jpgs
        }
    } else {
        let sel = match background {
            Some(b) => first_where(images, named_png_or_webp_pred(b)),
            None => images.len() as int,
        };
        if sel < images.len() {
            seq![images[sel]]
        } else {
            let k = first_where(images, png_or_webp_pred());
            if k < images.len() {
                seq![images[k]]
            } else {
                Seq::<Seq<char>>::empty()
            }
        }
    }
}

/// A test on paths.
pub enum PathTest {
    Mp3,
    SongOgg,
    Jpg,
    PngOrWebp,
    Named(Vec<char>),
    NamedPngOrWebp(Vec<char>),
}

impl PathTest {
    pub open spec fn pred(&self) -> spec_fn(Seq<char>) -> bool {
        match self {
            PathTest::Mp3 => mp3_pred(),
            PathTest::SongOgg => song_ogg_pred(),
            PathTest::Jpg => jpg_pred(),
            PathTest::PngOrWebp => png_or_webp_pred(),
            PathTest::Named(n) => named_pred(n@),
            PathTest::NamedPngOrWebp(n) => named_png_or_webp_pred(n@),
        }
    }

    fn check(&self, path: &str) -> (r: bool)
        ensures
            r == (self.pred())(path@),
    {
        let e = extension(path);
        match self {
            PathTest::Mp3 => {
                let a = to_chars("mp3");
                eq_ignore_ascii_case_chars(e.as_slice(), a.as_slice())
            },
            PathTest::SongOgg => {
                let a = to_chars("ogg");
                eq_ignore_ascii_case_chars(e.as_slice(), a.as_slice()) && match file_stem(path) {
                    Some(n) => !hitsound_chars(n.as_slice()),
                    None => false,
                }
            },
            PathTest::Jpg => {
                let a = to_chars("jpg");
                let b = to_chars("jpeg");
                eq_ignore_ascii_case_chars(e.as_slice(), a.as_slice())
                    || eq_ignore_ascii_case_chars(e.as_slice(), b.as_slice())
            },
            PathTest::PngOrWebp => png_or_webp_ext(e.as_slice()),
            PathTest::Named(n) => named_chars(path, n.as_slice()),
            PathTest::NamedPngOrWebp(n) => named_chars(path, n.as_slice()) && png_or_webp_ext(
                e.as_slice(),
            ),
        }
    }
}

fn png_or_webp_ext(e: &[char]) -> (r: bool)
    ensures
        r == (eq_ignore_ascii_case(e@, "png"@) || eq_ignore_ascii_case(e@, "webp"@)),
{
    let a = to_chars("png");
    let b = to_chars("webp");
    eq_ignore_ascii_case_chars(e, a.as_slice()) || eq_ignore_ascii_case_chars(e, b.as_slice())
}

fn named_chars(path: &str, name: &[char]) -> (r: bool)
    ensures
        r == is_named(path@, name@),
{
    match file_name(path) {
        Some(n) => eq_ignore_ascii_case_chars(n.as_slice(), name),
        None => false,
    }
}

/// Index of the first path that passes `test`, or `paths.len()`.
fn first_index(paths: &Vec<String>, test: &PathTest) -> (r: usize)
    ensures
        r as int == first_where(string_views(paths@), test.pred()),
        r <= paths.len(),
{
    let ghost s = string_views(paths@);
    let mut i: usize = 0;
    while i < paths.len()
        invariant
            i <= paths.len(),
            s == string_views(paths@),
            forall|j: int| 0 <= j < i ==> !(test.pred())(#[trigger] s[j]),
        decreases paths.len() - i,
    {
        if test.check(paths[i].as_str()) {
            proof {
                lemma_first_where(s, test.pred(), i as int);
            }
            return i;
        }
        i = i + 1;
    }
    proof {
        lemma_first_where(s, test.pred(), i as int);
    }
    i
}

/// The paths that pass `test`, in order.
fn keep_paths(paths: &Vec<String>, test: &PathTest) -> (r: Vec<String>)
    ensures
        string_views(r@) == keep(string_views(paths@), test.pred()),
{
    let ghost s = string_views(paths@);
    let mut out: Vec<String> = Vec::new();
    let mut i: usize = 0;
    while i < paths.len()
        invariant
            i <= paths.len(),
            s == string_views(paths@),
            string_views(out@) == keep(s.take(i as int), test.pred()),
        decreases paths.len() - i,
    {
        assert(s.take(i + 1).drop_last() =~= s.take(i as int));
        assert(s.take(i + 1).last() == paths@[i as int]@);
        if test.check(paths[i].as_str()) {
            let ghost before = out@;
            out.push(paths[i].clone());
            assert(string_views(out@) =~= string_views(before).push(paths@[i as int]@));
        }
        i = i + 1;
    }
    assert(s.take(paths.len() as int) =~= s);
    out
}

fn single(p: &String) -> (r: Vec<String>)
    ensures
        string_views(r@) == seq![p@],
{
    let mut v: Vec<String> = Vec::new();
    v.push(p.clone());
    assert(string_views(v@) =~= seq![p@]);
    v
}

/// The cover images to keep of a beatmap folder's images (see
/// `chosen_images`).
pub fn choose_images(images: Vec<String>, background: Option<&str>, has_video: bool) -> (r: Vec<
    String,
>)
    ensures
        string_views(r@) == chosen_images(
            string_views(images@),
            match background {
                Some(b) => Some(b@),
                None => None,
            },
            has_video,
        ),
{
    let ghost all = string_views(images@);
    let bg: Option<Vec<char>> = match background {
        Some(b) => Some(to_chars(b)),
        None => None,
    };
    let kept = keep_paths(&images, &PathTest::Jpg);
    let jpgs = sort_by_file_name(&kept);
    if has_video {
        match &bg {
            Some(b) => {
                let test = PathTest::Named(b.clone());
                assert(test.pred() == named_pred(background.unwrap()@));
                let m = first_index(&images, &test);
                if m < images.len() {
                    return single(&images[m]);
                }
            },
            None => {},
        }
        if jpgs.len() > 0 {
            return single(&jpgs[0]);
        }
        let sorted = sort_by_file_name(&images);
        let k = first_index(&sorted, &PathTest::PngOrWebp);
        if k < sorted.len() {
            return single(&sorted[k]);
        }
        let empty: Vec<String> = Vec::new();
        assert(string_views(empty@) =~= Seq::<Seq<char>>::empty());
        return empty;
    }
    if jpgs.len() > 0 {
        let mut out = jpgs;
        match &bg {
            Some(b) => {
                let test = PathTest::Named(b.clone());
                assert(test.pred() == named_pred(background.unwrap()@));
                let pos = first_index(&out, &test);
                if pos < out.len() {
                    let ghost before = string_views(out@);
                    let first = out[0].clone();
                    let found = out[pos].clone();
                    out.set(0, found);
                    out.set(pos, first);
                    assert(string_views(out@) =~= before.update(0, before[pos as int]).update(
                        pos as int,
                        before[0],
                    ));
                }
            },
            None => {},
        }
        return out;
    }
    match &bg {
        Some(b) => {
            let test = PathTest::NamedPngOrWebp(b.clone());
            assert(test.pred() == named_png_or_webp_pred(background.unwrap()@));
            let sel = first_index(&images, &test);
            if sel < images.len() {
                return single(&images[sel]);
            }
        },
        None => {},
    }
    let k = first_index(&images, &PathTest::PngOrWebp);
    if k < images.len() {
        return single(&images[k]);
    }
    let empty: Vec<String> = Vec::new();
    assert(string_views(empty@) =~= Seq::<Seq<char>>::empty());
    empty
}

// ---------------------------------------------------------------------------
// Flattening a beatmap folder
// ---------------------------------------------------------------------------

/// A file found in a beatmap folder, with its text when it is an `.osu` file
/// that could be read.
pub struct FolderFile {
    pub path: String,
    pub osu_text: Option<String>,
}

/// What is gathered from a beatmap folder's files, in the order they are
/// listed.
pub struct FolderScan {
    pub title: Option<Seq<char>>,
    pub background: Option<Seq<char>>,
    pub images: Seq<Seq<char>>,
    pub video: Option<Seq<char>>,
    pub audio: Seq<Seq<char>>,
}

pub open spec fn opt_text(t: Option<String>) -> Option<Seq<char>> {
    match t {
        Some(s) => Some(s@),
        None => None,
    }
}

/// `Artist - Title`, when a beatmap's text gives both.
pub open spec fn osu_title(text: Option<Seq<char>>) -> Option<Seq<char>> {
    match text {
        Some(t) => match osu_metadata(t).0 {
            Some(a) => match osu_metadata(t).1 {
                Some(s) => Some(a + " - "@ + s),
                None => None,
            },
            None => None,
        },
        None => None,
    }
}

/// What one more file adds to a scan: the first beatmap title and background,
/// every song (hit sounds left out), every image, and the first video.
pub open spec fn scan_step(st: FolderScan, path: Seq<char>, text: Option<Seq<char>>) -> FolderScan {
    let e = lower_ext(path);
    if e == "osu"@ {
        FolderScan {
            title: if st.title.is_none() {
                osu_title(text)
            } else {
                st.title
            },
            background: if st.background.is_none() {
                match text {
                    Some(t) => osu_background(t),
                    None => None,
                }
            } else {
                st.background
            },
            ..st
        }
    } else if is_audio_ext(e) {
        let stem = match path_stem(path) {
            Some(s) => s,
            None => Seq::<char>::empty(),
        };
        if !hitsound_name(stem) {
            FolderScan { audio: st.audio.push(path), ..st }
        } else {
            st
        }
    } else if is_image_ext(e) {
        FolderScan { images: st.images.push(path), ..st }
    } else if is_video_ext(e) && st.video.is_none() {
        FolderScan { video: Some(path), ..st }
    } else {
        st
    }
}

pub open spec fn folder_scan(files: Seq<FolderFile>) -> FolderScan
    decreases files.len(),
{
    if files.len() == 0 {
        FolderScan {
            title: None,
            background: None,
            images: Seq::<Seq<char>>::empty(),
            video: None,
            audio: Seq::<Seq<char>>::empty(),
        }
    } else {
        scan_step(folder_scan(files.drop_last()), files.last().path@, opt_text(files.last().osu_text))
    }
}

pub open spec fn mp3_pred() -> spec_fn(Seq<char>) -> bool {
    |p: Seq<char>| eq_ignore_ascii_case(extension_text(p), "mp3"@)
}

pub open spec fn song_ogg_pred() -> spec_fn(Seq<char>) -> bool {
    |p: Seq<char>|
        eq_ignore_ascii_case(extension_text(p), "ogg"@) && (path_stem(p) matches Some(n)
            && !hitsound_name(n))
}

/// The song of a folder: the first MP3, else the first OGG that is not a hit
/// sound.
pub open spec fn source_audio(audio: Seq<Seq<char>>) -> Option<Seq<char>> {
    let i = first_where(audio, mp3_pred());
    if i < audio.len() {
        Some(audio[i])
    } else {
        let j = first_where(audio, song_ogg_pred());
        if j < audio.len() {
            Some(audio[j])
        } else {
            None
        }
    }
}

/// The title of a flattened folder, usable as a file name: the beatmap's
/// `Artist - Title`, else the folder's name without its numeric id, else
/// `Track`.
pub open spec fn folder_title(folder: Seq<char>, scan_title: Option<Seq<char>>) -> Seq<char> {
    sanitized(
        match scan_title {
            Some(t) => t,
            None => match file_name_of(folder) {
                Some(n) => clean_folder(n),
                None => "Track"@,
            },
        },
    )
}

/// The name the `i`-th chosen image is given.
pub open spec fn image_target_name(title: Seq<char>, i: nat, path: Seq<char>, has_video: bool) -> Seq<
    char,
> {
    if has_video || i == 0 {
        title + "."@ + lower_ext(path)
    } else {
        title + "_"@ + decimal(i) + "."@ + lower_ext(path)
    }
}

/// What to do with a video that is moved.
pub struct VideoPlan {
    pub source: String,
    pub name: String,
    /// Whether it is converted to WebM afterwards.
    pub convert: bool,
}

/// How a beatmap folder is flattened into the song folder: the files that are
/// moved, and the names they are given (before a free name is found for each).
pub struct FolderPlan {
    pub title: String,
    pub audio_source: String,
    pub audio_name: String,
    pub image_sources: Vec<String>,
    pub image_names: Vec<String>,
    pub video: Option<VideoPlan>,
}

fn osu_title_of(text: &Option<String>) -> (r: Option<Vec<char>>)
    ensures
        key_view_opt(r) == osu_title(opt_text(*text)),
{
    match text {
        Some(t) => {
            let (a, s) = parse_osu_metadata(t.as_str());
            match a {
                Some(a) => match s {
                    Some(s) => {
                        let mut out = to_chars(a.as_str());
                        let sep = to_chars(" - ");
                        let sv = to_chars(s.as_str());
                        let ghost a0 = out@;
                        let mut i: usize = 0;
                        while i < sep.len()
                            invariant
                                i <= sep.len(),
                                out@ == a0 + sep@.take(i as int),
                            decreases sep.len() - i,
                        {
                            out.push(sep[i]);
                            i = i + 1;
                            assert(sep@.take(i as int) =~= sep@.take(i - 1).push(sep@[i - 1]));
                        }
                        assert(sep@.take(sep.len() as int) =~= sep@);
                        let ghost a1 = out@;
                        let mut j: usize = 0;
                        while j < sv.len()
                            invariant
                                j <= sv.len(),
                                out@ == a1 + sv@.take(j as int),
                            decreases sv.len() - j,
                        {
                            out.push(sv[j]);
                            j = j + 1;
                            assert(sv@.take(j as int) =~= sv@.take(j - 1).push(sv@[j - 1]));
                        }
                        assert(sv@.take(sv.len() as int) =~= sv@);
                        Some(out)
                    },
                    None => None,
                },
                None => None,
            }
        },
        None => None,
    }
}

pub open spec fn key_view_opt(k: Option<Vec<char>>) -> Option<Seq<char>> {
    match k {
        Some(v) => Some(v@),
        None => None,
    }
}

pub open spec fn opt_string_view(k: Option<String>) -> Option<Seq<char>> {
    match k {
        Some(v) => Some(v@),
        None => None,
    }
}

/// Gathers what a beatmap folder holds (see `folder_scan`).
fn scan_folder(files: &Vec<FolderFile>) -> (r: (Option<Vec<char>>, Option<String>, Vec<String>, Option<String>, Vec<String>))
    ensures
        key_view_opt(r.0) == folder_scan(files@).title,
        opt_string_view(r.1) == folder_scan(files@).background,
        string_views(r.2@) == folder_scan(files@).images,
        opt_string_view(r.3) == folder_scan(files@).video,
        string_views(r.4@) == folder_scan(files@).audio,
{
    let mut title: Option<Vec<char>> = None;
    let mut background: Option<String> = None;
    let mut images: Vec<String> = Vec::new();
    let mut video: Option<String> = None;
    let mut audio: Vec<String> = Vec::new();
    let mut i: usize = 0;
    while i < files.len()
        invariant
            i <= files.len(),
            key_view_opt(title) == folder_scan(files@.take(i as int)).title,
            opt_string_view(background) == folder_scan(files@.take(i as int)).background,
            string_views(images@) == folder_scan(files@.take(i as int)).images,
            opt_string_view(video) == folder_scan(files@.take(i as int)).video,
            string_views(audio@) == folder_scan(files@.take(i as int)).audio,
        decreases files.len() - i,
    {
        let ghost st = folder_scan(files@.take(i as int));
        assert(files@.take(i + 1).drop_last() =~= files@.take(i as int));
        assert(files@.take(i + 1).last() == files@[i as int]);
        let f = &files[i];
        let path = f.path.as_str();
        let e = lower_extension(path);
        if chars_eq_str(e.as_slice(), "osu") {
            if title.is_none() {
                title = osu_title_of(&f.osu_text);
            }
            if background.is_none() {
                background = match &f.osu_text {
                    Some(t) => extract_background(t.as_str()),
                    None => None,
                };
            }
        } else if is_audio_ext_chars(e.as_slice()) {
            let stem = match file_stem(path) {
                Some(s) => s,
                None => Vec::new(),
            };
            if !hitsound_chars(stem.as_slice()) {
                let ghost before = audio@;
                audio.push(f.path.clone());
                assert(string_views(audio@) =~= string_views(before).push(f.path@));
            }
        } else if is_image_ext_chars(e.as_slice()) {
            let ghost before = images@;
            images.push(f.path.clone());
            assert(string_views(images@) =~= string_views(before).push(f.path@));
        } else if is_video_ext_chars(e.as_slice()) && video.is_none() {
            video = Some(f.path.clone());
        }
        i = i + 1;
    }
    assert(files@.take(files.len() as int) =~= files@);
    (title, background, images, video, audio)
}

fn push_title_dot_ext(title: &Vec<char>, ext: &Vec<char>) -> (r: String)
    ensures
        r@ == title@ + "."@ + ext@,
{
    let mut r = from_chars(title.as_slice());
    push_str(&mut r, ".");
    push_chars(&mut r, ext.as_slice());
    r
}

/// Plans how to flatten the beatmap folder `folder`, whose files are `files`
/// (see `folder_scan` and the functions after it).  There is no plan when the
/// folder holds no song.
pub fn plan_folder(folder: &str, files: &Vec<FolderFile>) -> (r: Option<FolderPlan>)
    ensures
        r.is_some() == source_audio(folder_scan(files@).audio).is_some(),
        r matches Some(plan) ==> is_clean_name(plan.title@),
        r matches Some(plan) ==> {
            let scan = folder_scan(files@);
            let title = folder_title(folder@, scan.title);
            let has_video = scan.video.is_some();
            let source = source_audio(scan.audio).unwrap();
            let images = chosen_images(scan.images, scan.background, has_video);
            &&& plan.title@ == title
            &&& plan.audio_source@ == source
            &&& plan.audio_name@ == title + "."@ + lower_ext(source)
            &&& string_views(plan.image_sources@) == images
            &&& plan.image_names@.len() == images.len()
            &&& forall|i: int|
                0 <= i < images.len() ==> #[trigger] plan.image_names@[i]@ == image_target_name(
                    title,
                    i as nat,
                    images[i],
                    has_video,
                )
            &&& plan.video.is_some() == has_video
            &&& plan.video matches Some(v) ==> {
                &&& v.source@ == scan.video.unwrap()
                &&& v.name@ == title + "."@ + lower_ext(scan.video.unwrap())
                &&& v.convert == (lower_ext(scan.video.unwrap()) != "webm"@)
            }
        },
{
    proof {
        lemma_folder_title_is_clean(folder@, folder_scan(files@).title);
    }
    let (scan_title, background, images, video, audio) = scan_folder(files);
    let i = first_index(&audio, &PathTest::Mp3);
    let source: String = if i < audio.len() {
        audio[i].clone()
    } else {
        let j = first_index(&audio, &PathTest::SongOgg);
        if j < audio.len() {
            audio[j].clone()
        } else {
            return None;
        }
    };
    let raw_title: Vec<char> = match scan_title {
        Some(t) => t,
        None => match file_name(folder) {
            Some(n) => {
                let cleaned = clean_folder_name(from_chars(n.as_slice()).as_str());
                to_chars(cleaned.as_str())
            },
            None => to_chars("Track"),
        },
    };
    let title_string = sanitize_filename(from_chars(raw_title.as_slice()).as_str());
    let title = to_chars(title_string.as_str());
    let has_video = video.is_some();
    let bg_ref: Option<&str> = match &background {
        Some(b) => Some(b.as_str()),
        None => None,
    };
    let chosen = choose_images(images, bg_ref, has_video);
    let audio_ext = lower_extension(source.as_str());
    let audio_name = push_title_dot_ext(&title, &audio_ext);
    let mut image_names: Vec<String> = Vec::new();
    let mut k: usize = 0;
    while k < chosen.len()
        invariant
            k <= chosen.len(),
            image_names@.len() == k,
            title@ == folder_title(folder@, folder_scan(files@).title),
            forall|m: int|
                0 <= m < k ==> #[trigger] image_names@[m]@ == image_target_name(
                    title@,
                    m as nat,
                    chosen@[m]@,
                    has_video,
                ),
        decreases chosen.len() - k,
    {
        let e = lower_extension(chosen[k].as_str());
        let name = if has_video || k == 0 {
            push_title_dot_ext(&title, &e)
        } else {
            let mut n = from_chars(title.as_slice());
            push_str(&mut n, "_");
            push_decimal(&mut n, k as u64);
            push_str(&mut n, ".");
            push_chars(&mut n, e.as_slice());
            n
        };
        image_names.push(name);
        k = k + 1;
    }
    let video_plan = match video {
        Some(v) => {
            let e = lower_extension(v.as_str());
            let name = push_title_dot_ext(&title, &e);
            let convert = !chars_eq_str(e.as_slice(), "webm");
            Some(VideoPlan { source: v, name, convert })
        },
        None => None,
    };
    Some(
        FolderPlan {
            title: title_string,
            audio_source: source,
            audio_name,
            image_sources: chosen,
            image_names,
            video: video_plan,
        },
    )
}

// ---------------------------------------------------------------------------
// The media of a track
// ---------------------------------------------------------------------------

/// The extension of a file name, or the empty text.
pub open spec fn name_ext_text(name: Seq<char>) -> Seq<char> {
    match extension_of_name(name) {
        Some(e) => e,
        None => Seq::<char>::empty(),
    }
}

/// JPEGs come first among a track's images.
pub open spec fn image_rank(name: Seq<char>) -> nat {
    let e = lower_ascii_seq(name_ext_text(name));
    if e == "jpg"@ || e == "jpeg"@ {
        0
    } else {
        1
    }
}

/// A video of the track whose stem is `sl` (in ASCII lower case).
pub open spec fn is_track_video(sl: Seq<char>, name: Seq<char>) -> bool {
    is_video_ext(lower_ascii_seq(name_ext_text(name))) && lower_ascii_seq(stem_of_name(name)) == sl
}

/// An image named like the track.
pub open spec fn is_exact_image(sl: Seq<char>, name: Seq<char>) -> bool {
    !is_track_video(sl, name) && is_image_ext(lower_ascii_seq(name_ext_text(name)))
        && lower_ascii_seq(stem_of_name(name)) == sl
}

/// The number of an image named like the track followed by `_n` or ` n`.
pub open spec fn image_number(sl: Seq<char>, name: Seq<char>) -> Option<nat> {
    let fsl = lower_ascii_seq(stem_of_name(name));
    if is_track_video(sl, name) || !is_image_ext(lower_ascii_seq(name_ext_text(name))) || fsl == sl {
        None
    } else if starts_with(fsl, sl + "_"@) {
        parse_unsigned(fsl.skip(sl.len() as int + 1), u64::MAX as nat)
    } else if starts_with(fsl, sl + " "@) {
        parse_unsigned(fsl.skip(sl.len() as int + 1), u64::MAX as nat)
    } else {
        None
    }
}

/// The numbered images with their number and rank, in listing order.
pub open spec fn numbered_images(sl: Seq<char>, names: Seq<Seq<char>>) -> Seq<(nat, nat, Seq<char>)>
    decreases names.len(),
{
    if names.len() == 0 {
        Seq::<(nat, nat, Seq<char>)>::empty()
    } else {
        let prev = numbered_images(sl, names.drop_last());
        match image_number(sl, names.last()) {
            Some(n) => prev.push((n, image_rank(names.last()), names.last())),
            None => prev,
        }
    }
}

/// Numbered images ordered by number, then rank, then name.
pub open spec fn numbered_le() -> spec_fn((nat, nat, Seq<char>), (nat, nat, Seq<char>)) -> bool {
    |a: (nat, nat, Seq<char>), b: (nat, nat, Seq<char>)|
        a.0 < b.0 || (a.0 == b.0 && (a.1 < b.1 || (a.1 == b.1 && text_le(a.2, b.2))))
}

pub open spec fn video_pred(sl: Seq<char>) -> spec_fn(Seq<char>) -> bool {
    |n: Seq<char>| is_track_video(sl, n)
}

pub open spec fn exact_pred(sl: Seq<char>) -> spec_fn(Seq<char>) -> bool {
    |n: Seq<char>| is_exact_image(sl, n)
}

pub open spec fn rank_pred(rank: nat) -> spec_fn(Seq<char>) -> bool {
    |n: Seq<char>| image_rank(n) == rank
}

/// The covers and the video that belong to the track stored at `track_path`,
/// among the files called `names` beside it (in listing order).  A video named
/// like the track is taken, and then only the first image named like it, JPEG
/// first.  Otherwise the covers are the images named like it (JPEGs first),
/// then those named like it with a number, by number.
pub open spec fn track_media(track_path: Seq<char>, names: Seq<Seq<char>>) -> (
    Seq<Seq<char>>,
    Option<Seq<char>>,
) {
    match path_stem(track_path) {
        None => (Seq::<Seq<char>>::empty(), None),
        Some(stem) => {
            let sl = lower_ascii_seq(stem);
            let v = first_where(names, video_pred(sl));
            let exact = keep(names, exact_pred(sl));
            let ordered = keep(exact, rank_pred(0)) + keep(exact, rank_pred(1));
            if v < names.len() {
                (
                    if ordered.len() > 0 {
                        seq![ordered[0]]
                    } else {
                        Seq::<Seq<char>>::empty()
                    },
                    Some(names[v]),
                )
            } else {
                (
                    ordered + sort_by(numbered_images(sl, names), numbered_le()).map_values(
                        |e: (nat, nat, Seq<char>)| e.2,
                    ),
                    None,
                )
            }
        },
    }
}

/// A numbered cover image.
struct Numbered {
    number: u64,
    rank: u8,
    name: String,
}

spec fn numbered_view(v: Seq<Numbered>) -> Seq<(nat, nat, Seq<char>)> {
    v.map_values(|e: Numbered| (e.number as nat, e.rank as nat, e.name@))
}

fn numbered_le_of(a: &Numbered, b: &Numbered) -> (r: bool)
    ensures
        r == (numbered_le())(
            (a.number as nat, a.rank as nat, a.name@),
            (b.number as nat, b.rank as nat, b.name@),
        ),
{
    if a.number != b.number {
        return a.number < b.number;
    }
    if a.rank != b.rank {
        return a.rank < b.rank;
    }
    let x = to_chars(a.name.as_str());
    let y = to_chars(b.name.as_str());
    text_le_chars(x.as_slice(), y.as_slice())
}

fn sort_numbered(items: Vec<Numbered>) -> (r: Vec<Numbered>)
    ensures
        numbered_view(r@) == sort_by(numbered_view(items@), numbered_le()),
{
    let ghost le = numbered_le();
    let ghost input = numbered_view(items@);
    let mut items = items;
    let mut out: Vec<Numbered> = Vec::new();
    let mut i: usize = 0;
    let n = items.len();
    let mut rest: Vec<Numbered> = Vec::new();
    // Take the items in their order: reverse them once so that `pop` yields
    // them first to last.
    while items.len() > 0
        invariant
            input == numbered_view(items@) + numbered_view(rest@).reverse(),
        decreases items.len(),
    {
        let ghost before_items = items@;
        let ghost before_rest = rest@;
        let x = items.pop().unwrap();
        rest.push(x);
        assert(numbered_view(before_items) =~= numbered_view(items@).push(numbered_view(before_items).last()));
        assert(numbered_view(rest@) =~= numbered_view(before_rest).push(numbered_view(before_items).last()));
        assert(numbered_view(rest@).reverse() =~= seq![numbered_view(before_items).last()] + numbered_view(before_rest).reverse());
    }
    assert(input =~= numbered_view(rest@).reverse());
    while i < n
        invariant
            n == input.len(),
            i <= n,
            rest.len() == n - i,
            le == numbered_le(),
            numbered_view(rest@).reverse() == input.skip(i as int),
            numbered_view(out@) == sort_by(input.take(i as int), le),
        decreases n - i,
    {
        let ghost sorted = numbered_view(out@);
        let ghost before_rest = rest@;
        let x = rest.pop().unwrap();
        assert(numbered_view(before_rest) =~= numbered_view(rest@).push(numbered_view(before_rest).last()));
        assert(input.skip(i as int)[0] == numbered_view(before_rest).last());
        assert(numbered_view(before_rest).reverse() =~= seq![numbered_view(before_rest).last()] + numbered_view(rest@).reverse());
        assert(input.skip(i as int).drop_first() =~= input.skip(i + 1));
        assert(numbered_view(rest@).reverse() =~= input.skip(i + 1));
        let ghost xv = (x.number as nat, x.rank as nat, x.name@);
        assert(xv == input[i as int]);
        assert(input.take(i + 1).drop_last() =~= input.take(i as int));
        let mut j: usize = out.len();
        while j > 0 && !numbered_le_of(&out[j - 1], &x)
            invariant
                j <= out.len(),
                sorted == numbered_view(out@),
                le == numbered_le(),
                xv == (x.number as nat, x.rank as nat, x.name@),
                forall|k: int| j <= k < sorted.len() ==> !le(#[trigger] sorted[k], xv),
            decreases j,
        {
            j = j - 1;
        }
        proof {
            lemma_insert_by_split(sorted, xv, le, j as int);
        }
        out.insert(j, x);
        assert(numbered_view(out@) =~= sorted.insert(j as int, xv));
        i = i + 1;
    }
    assert(input.take(n as int) =~= input);
    out
}

/// Which covers and video belong to the track stored at `track_path`, given
/// the names of the files beside it (see `track_media`).
pub fn select_track_media(track_path: &str, names: &Vec<String>) -> (r: (Vec<String>, Option<String>))
    ensures
        string_views(r.0@) == track_media(track_path@, string_views(names@)).0,
        opt_string_view(r.1) == track_media(track_path@, string_views(names@)).1,
{
    let ghost all = string_views(names@);
    let stem = match file_stem(track_path) {
        Some(s) => s,
        None => {
            let empty: Vec<String> = Vec::new();
            assert(string_views(empty@) =~= Seq::<Seq<char>>::empty());
            return (empty, None);
        },
    };
    let sl = lower_ascii_chars(stem.as_slice());
    let mut video: Option<String> = None;
    let mut exact0: Vec<String> = Vec::new();
    let mut exact1: Vec<String> = Vec::new();
    let mut numbered: Vec<Numbered> = Vec::new();
    let mut under = slice_chars(sl.as_slice(), 0, sl.len());
    under.push('_');
    let mut space = slice_chars(sl.as_slice(), 0, sl.len());
    space.push(' ');
    proof {
        reveal_strlit("_");
        reveal_strlit(" ");
        assert(under@ =~= sl@ + "_"@);
        assert(space@ =~= sl@ + " "@);
    }
    let ghost mut vk: int = 0;
    let mut i: usize = 0;
    while i < names.len()
        invariant
            i <= names.len(),
            all == string_views(names@),
            under@ == sl@ + "_"@,
            space@ == sl@ + " "@,
            video is None ==> forall|j: int| 0 <= j < i ==> !is_track_video(sl@, #[trigger] all[j]),
            video matches Some(v) ==> ({
                &&& 0 <= vk < i
                &&& all[vk] == v@
                &&& is_track_video(sl@, all[vk])
                &&& forall|j: int| 0 <= j < vk ==> !is_track_video(sl@, #[trigger] all[j])
            }),
            string_views(exact0@) == keep(keep(all.take(i as int), exact_pred(sl@)), rank_pred(0)),
            string_views(exact1@) == keep(keep(all.take(i as int), exact_pred(sl@)), rank_pred(1)),
            numbered_view(numbered@) == numbered_images(sl@, all.take(i as int)),
        decreases names.len() - i,
    {
        let ghost pre = all.take(i as int);
        let ghost name_v = all[i as int];
        assert(all.take(i + 1).drop_last() =~= pre);
        assert(all.take(i + 1).last() == name_v);
        let n = to_chars(names[i].as_str());
        let fs = name_stem(n.as_slice());
        let fsl = lower_ascii_chars(fs.as_slice());
        let raw_ext = match name_extension(n.as_slice()) {
            Some(e) => e,
            None => Vec::new(),
        };
        let e = lower_ascii_chars(raw_ext.as_slice());
        assert(e@ == lower_ascii_seq(name_ext_text(name_v)));
        let same = chars_eq(fsl.as_slice(), sl.as_slice());
        let ghost ex = keep(pre, exact_pred(sl@));
        let ghost ex1 = keep(all.take(i + 1), exact_pred(sl@));
        if is_video_ext_chars(e.as_slice()) && same {
            assert(is_track_video(sl@, name_v));
            if video.is_none() {
                video = Some(names[i].clone());
                proof {
                    vk = i as int;
                }
            }
            assert(ex1 == ex);
            assert(numbered_images(sl@, all.take(i + 1)) == numbered_images(sl@, pre));
        } else {
            assert(!is_track_video(sl@, name_v));
            if is_image_ext_chars(e.as_slice()) {
                if same {
                    assert(is_exact_image(sl@, name_v));
                    assert(ex1 == ex.push(name_v));
                    let jpg = chars_eq_str(e.as_slice(), "jpg") || chars_eq_str(e.as_slice(), "jpeg");
                    assert(image_rank(name_v) == (if jpg { 0nat } else { 1nat }));
                    assert(ex1.drop_last() =~= ex);
                    assert(ex1.last() == name_v);
                    if jpg {
                        let ghost b0 = exact0@;
                        exact0.push(names[i].clone());
                        assert(string_views(exact0@) =~= string_views(b0).push(name_v));
                        assert(keep(ex1, rank_pred(0)) == keep(ex, rank_pred(0)).push(name_v));
                        assert(keep(ex1, rank_pred(1)) == keep(ex, rank_pred(1)));
                    } else {
                        let ghost b1 = exact1@;
                        exact1.push(names[i].clone());
                        assert(string_views(exact1@) =~= string_views(b1).push(name_v));
                        assert(keep(ex1, rank_pred(1)) == keep(ex, rank_pred(1)).push(name_v));
                        assert(keep(ex1, rank_pred(0)) == keep(ex, rank_pred(0)));
                    }
                    assert(numbered_images(sl@, all.take(i + 1)) == numbered_images(sl@, pre));
                } else {
                    assert(ex1 == ex);
                    proof {
                        reveal_strlit("_");
                        reveal_strlit(" ");
                    }
                    assert(under@.len() == sl@.len() + 1);
                    assert(space@.len() == sl@.len() + 1);
                    let su = starts_with_chars(fsl.as_slice(), under.as_slice());
                    let ss = starts_with_chars(fsl.as_slice(), space.as_slice());
                    let cut = under.len();
                    assert(cut == sl@.len() + 1);
                    assert(space.len() == cut);
                    let number: Option<u64> = if su {
                        assert(under@.len() <= fsl@.len());
                        let digits = slice_chars(fsl.as_slice(), cut, fsl.len());
                        assert(digits@ =~= fsl@.skip(sl@.len() as int + 1));
                        parse_u64_chars(digits.as_slice())
                    } else if ss {
                        assert(space@.len() <= fsl@.len());
                        let digits = slice_chars(fsl.as_slice(), cut, fsl.len());
                        assert(digits@ =~= fsl@.skip(sl@.len() as int + 1));
                        parse_u64_chars(digits.as_slice())
                    } else {
                        None
                    };
                    assert(number.is_some() == image_number(sl@, name_v).is_some());
                    match number {
                        Some(num) => {
                            let jpg = chars_eq_str(e.as_slice(), "jpg") || chars_eq_str(
                                e.as_slice(),
                                "jpeg",
                            );
                            let rank: u8 = if jpg {
                                0
                            } else {
                                1
                            };
                            assert(rank as nat == image_rank(name_v));
                            let ghost bn = numbered@;
                            numbered.push(Numbered { number: num, rank, name: names[i].clone() });
                            assert(numbered_view(numbered@) =~= numbered_view(bn).push(
                                (num as nat, rank as nat, name_v),
                            ));
                        },
                        None => {},
                    }
                }
            } else {
                assert(!is_exact_image(sl@, name_v));
                assert(ex1 == ex);
                assert(numbered_images(sl@, all.take(i + 1)) == numbered_images(sl@, pre));
            }
        }
        i = i + 1;
    }
    assert(all.take(names.len() as int) =~= all);
    let ghost exact = keep(all, exact_pred(sl@));
    let ghost ordered = keep(exact, rank_pred(0)) + keep(exact, rank_pred(1));
    match video {
        Some(v) => {
            proof {
                lemma_first_where(all, video_pred(sl@), vk);
            }
            let mut covers: Vec<String> = Vec::new();
            if exact0.len() > 0 {
                covers.push(exact0[0].clone());
                assert(ordered[0] == string_views(exact0@)[0]);
            } else if exact1.len() > 0 {
                covers.push(exact1[0].clone());
                assert(ordered[0] == string_views(exact1@)[0]);
            }
            assert(string_views(covers@) =~= (if ordered.len() > 0 {
                seq![ordered[0]]
            } else {
                Seq::<Seq<char>>::empty()
            }));
            (covers, Some(v))
        },
        None => {
            proof {
                lemma_first_where(all, video_pred(sl@), all.len() as int);
            }
            let sorted = sort_numbered(numbered);
            let ghost sv = numbered_view(sorted@);
            let mut covers: Vec<String> = Vec::new();
            let mut k: usize = 0;
            while k < exact0.len()
                invariant
                    k <= exact0.len(),
                    string_views(covers@) =~= string_views(exact0@).take(k as int),
                decreases exact0.len() - k,
            {
                let ghost b = covers@;
                covers.push(exact0[k].clone());
                assert(string_views(covers@) =~= string_views(b).push(exact0@[k as int]@));
                assert(string_views(exact0@).take(k + 1) =~= string_views(exact0@).take(k as int).push(exact0@[k as int]@));
                k = k + 1;
            }
            let mut k: usize = 0;
            let ghost c0 = string_views(covers@);
            while k < exact1.len()
                invariant
                    k <= exact1.len(),
                    string_views(covers@) =~= c0 + string_views(exact1@).take(k as int),
                decreases exact1.len() - k,
            {
                let ghost b = covers@;
                covers.push(exact1[k].clone());
                assert(string_views(covers@) =~= string_views(b).push(exact1@[k as int]@));
                assert(string_views(exact1@).take(k + 1) =~= string_views(exact1@).take(k as int).push(exact1@[k as int]@));
                k = k + 1;
            }
            let mut k: usize = 0;
            let ghost c1 = string_views(covers@);
            while k < sorted.len()
                invariant
                    k <= sorted.len(),
                    sv == numbered_view(sorted@),
                    string_views(covers@) =~= c1 + sv.take(k as int).map_values(
                        |e: (nat, nat, Seq<char>)| e.2,
                    ),
                decreases sorted.len() - k,
            {
                let ghost b = covers@;
                covers.push(sorted[k].name.clone());
                assert(string_views(covers@) =~= string_views(b).push(sorted@[k as int].name@));
                assert(sv[k as int].2 == sorted@[k as int].name@);
                assert(sv.take(k + 1).map_values(|e: (nat, nat, Seq<char>)| e.2) =~= sv.take(k as int).map_values(|e: (nat, nat, Seq<char>)| e.2).push(sv[k as int].2));
                k = k + 1;
            }
            assert(sv.take(sorted.len() as int) =~= sv);
            assert(string_views(exact0@).take(exact0.len() as int) =~= string_views(exact0@));
            assert(string_views(exact1@).take(exact1.len() as int) =~= string_views(exact1@));
            (covers, None)
        },
    }
}

// ---------------------------------------------------------------------------
// The picture shown for a track
// ---------------------------------------------------------------------------

/// The number that picks one of a track's covers.
pub open spec fn visual_mix(now: u64, salt: u64, id: usize) -> u64 {
    now ^ vstd::wrapping::u64_specs::wrapping_mul(salt, 0x9E37_79B9_7F4A_7C15u64)
        ^ vstd::wrapping::u64_specs::wrapping_mul(id as u64, 0xBF58_476D_1CE4_E5B9u64)
}

/// What the player shows for a track: its video with the video's offset, or
/// one of its covers picked by `salt` and the clock reading `now`, or nothing.
pub open spec fn track_visual(
    video_url: Option<Seq<char>>,
    offset: i64,
    covers: Seq<Seq<char>>,
    id: usize,
    salt: u64,
    now: u64,
) -> Option<(Seq<char>, bool, i64)> {
    match video_url {
        Some(v) => Some((v, true, offset)),
        None => if covers.len() == 0 {
            None
        } else {
            let k = ((visual_mix(now, salt, id) as usize) as nat) % covers.len();
            Some((covers[k as int], false, 0i64))
        },
    }
}

pub open spec fn opt_ref_view(v: Option<&String>) -> Option<Seq<char>> {
    match v {
        Some(s) => Some(s@),
        None => None,
    }
}

pub open spec fn visual_view(v: Option<(String, bool, i64)>) -> Option<(Seq<char>, bool, i64)> {
    match v {
        Some(t) => Some((t.0@, t.1, t.2)),
        None => None,
    }
}

/// What the player shows for track `id`, for a clock reading `now` (see
/// `track_visual`).
pub fn pick_track_visual(
    server: &AudioServer,
    id: usize,
    video_url: Option<&String>,
    covers: &Vec<String>,
    salt: u64,
    now: u64,
) -> (r: Option<(String, bool, i64)>)
    ensures
        visual_view(r) == track_visual(
            opt_ref_view(video_url),
            offset_of(server.registry_map(), id),
            string_views(covers@),
            id,
            salt,
            now,
        ),
{
    match video_url {
        Some(v) => {
            let offset = video_offset_ms(server, id);
            return Some((v.clone(), true, offset));
        },
        None => {},
    }
    if covers.len() == 0 {
        return None;
    }
    let mixed = now ^ salt.wrapping_mul(0x9E37_79B9_7F4A_7C15u64) ^ (id as u64).wrapping_mul(
        0xBF58_476D_1CE4_E5B9u64,
    );
    let index = (mixed as usize) % covers.len();
    Some((covers[index].clone(), false, 0))
}

/// What the player shows for track `id` when it starts: the video, or a
/// cover picked by `salt` and the clock.
pub fn choose_track_visual(
    server: &AudioServer,
    id: usize,
    video_url: Option<&String>,
    covers: &Vec<String>,
    salt: u64,
) -> (r: Option<(String, bool, i64)>)
    ensures
        exists|now: u64|
            visual_view(r) == #[trigger] track_visual(
                opt_ref_view(video_url),
                offset_of(server.registry_map(), id),
                string_views(covers@),
                id,
                salt,
                now,
            ),
{
    let (secs, nanos) = since_unix_epoch();
    let now = nanos_of(secs, nanos);
    pick_track_visual(server, id, video_url, covers, salt, now)
}

// ---------------------------------------------------------------------------
// The saved track list and the search box
// ---------------------------------------------------------------------------

/// A track as the track list file stores it.
pub struct SavedTrack {
    pub name: String,
    pub path: String,
}

pub open spec fn saved_view(v: Seq<SavedTrack>) -> Seq<(Seq<char>, Seq<char>)> {
    v.map_values(|t: SavedTrack| (t.name@, t.path@))
}

/// The tracks that have a file, as the track list file stores them.
pub open spec fn saved_entries(tracks: Seq<(String, Option<String>)>) -> Seq<(Seq<char>, Seq<char>)>
    decreases tracks.len(),
{
    if tracks.len() == 0 {
        Seq::<(Seq<char>, Seq<char>)>::empty()
    } else {
        let prev = saved_entries(tracks.drop_last());
        match tracks.last().1 {
            Some(p) => prev.push((tracks.last().0@, p@)),
            None => prev,
        }
    }
}

/// The entries of the track list file for tracks given by name and file.
pub fn saved_tracks(tracks: &Vec<(String, Option<String>)>) -> (r: Vec<SavedTrack>)
    ensures
        saved_view(r@) == saved_entries(tracks@),
{
    let mut out: Vec<SavedTrack> = Vec::new();
    let mut i: usize = 0;
    while i < tracks.len()
        invariant
            i <= tracks.len(),
            saved_view(out@) == saved_entries(tracks@.take(i as int)),
        decreases tracks.len() - i,
    {
        assert(tracks@.take(i + 1).drop_last() =~= tracks@.take(i as int));
        assert(tracks@.take(i + 1).last() == tracks@[i as int]);
        match &tracks[i].1 {
            Some(p) => {
                let ghost before = out@;
                out.push(SavedTrack { name: tracks[i].0.clone(), path: p.clone() });
                assert(saved_view(out@) =~= saved_view(before).push((tracks@[i as int].0@, p@)));
            },
            None => {},
        }
        i = i + 1;
    }
    assert(tracks@.take(tracks.len() as int) =~= tracks@);
    out
}

/// The positions of the texts that contain `part`.
pub open spec fn positions_containing(texts: Seq<Seq<char>>, part: Seq<char>) -> Seq<usize>
    decreases texts.len(),
{
    if texts.len() == 0 {
        Seq::<usize>::empty()
    } else {
        let prev = positions_containing(texts.drop_last(), part);
        if contains(texts.last(), part) {
            prev.push((texts.len() - 1) as usize)
        } else {
            prev
        }
    }
}

/// The positions of the names that contain `query`, both lowercased.
pub open spec fn matching_indices(names: Seq<Seq<char>>, query: Seq<char>) -> Seq<usize> {
    positions_containing(names.map_values(|n: Seq<char>| unicode_lowercase(n)), unicode_lowercase(query))
}

/// The positions of the texts that contain `part`.
pub fn find_containing(texts: &Vec<String>, part: &str) -> (r: Vec<usize>)
    ensures
        r@ == positions_containing(string_views(texts@), part@),
{
    let ghost all = string_views(texts@);
    let pc = to_chars(part);
    let mut out: Vec<usize> = Vec::new();
    let mut i: usize = 0;
    while i < texts.len()
        invariant
            i <= texts.len(),
            all == string_views(texts@),
            pc@ == part@,
            out@ == positions_containing(all.take(i as int), part@),
        decreases texts.len() - i,
    {
        assert(all.take(i + 1).drop_last() =~= all.take(i as int));
        assert(all.take(i + 1).last() == texts@[i as int]@);
        let tc = to_chars(texts[i].as_str());
        if contains_chars(tc.as_slice(), pc.as_slice()) {
            out.push(i);
        }
        i = i + 1;
    }
    assert(all.take(texts.len() as int) =~= all);
    out
}

/// The tracks the search box shows, by position in the list.
pub fn filter_tracks(names: &Vec<String>, query: &str) -> (r: Vec<usize>)
    ensures
        r@ == matching_indices(string_views(names@), query@),
{
    let ghost want = string_views(names@).map_values(|n: Seq<char>| unicode_lowercase(n));
    let mut lowered: Vec<String> = Vec::new();
    let mut i: usize = 0;
    while i < names.len()
        invariant
            i <= names.len(),
            want == string_views(names@).map_values(|n: Seq<char>| unicode_lowercase(n)),
            lowered.len() == i,
            string_views(lowered@) == want.take(i as int),
        decreases names.len() - i,
    {
        let lower = to_lowercase(names[i].as_str());
        let ghost before = lowered@;
        lowered.push(lower);
        assert(want[i as int] == unicode_lowercase(names@[i as int]@));
        assert(lowered@ =~= before.push(lower));
        assert forall|k: int| 0 <= k < i + 1 implies #[trigger] string_views(lowered@)[k] == want.take(
            i + 1,
        )[k] by {
            if k < i {
                assert(string_views(lowered@)[k] == string_views(before)[k]);
            }
        }
        assert(string_views(lowered@) =~= want.take(i + 1));
        i = i + 1;
    }
    assert(want.take(names.len() as int) =~= want);
    let q = to_lowercase(query);
    find_containing(&lowered, q.as_str())
}

// ---------------------------------------------------------------------------
// Imported archives
// ---------------------------------------------------------------------------

/// Whether an imported file is a beatmap archive.
pub fn is_osz_name(name: &str) -> (r: bool)
    ensures
        r == ends_with(lower_ascii_seq(name@), ".osz"@),
{
    let chars = to_chars(name);
    let lower = lower_ascii_chars(chars.as_slice());
    ends_with_str(lower.as_slice(), ".osz")
}

/// `s` without the characters `/` it starts with.
pub open spec fn strip_leading_slashes(s: Seq<char>) -> Seq<char>
    decreases s.len(),
{
    if s.len() > 0 && s[0] == '/' {
        strip_leading_slashes(s.drop_first())
    } else {
        s
    }
}

/// `s` without the `./` prefixes it starts with.
pub open spec fn strip_leading_dot_slashes(s: Seq<char>) -> Seq<char>
    decreases s.len(),
{
    if s.len() >= 2 && s[0] == '.' && s[1] == '/' {
        strip_leading_dot_slashes(s.skip(2))
    } else {
        s
    }
}

/// The relative path of an archive entry whose name the archive does not
/// vouch for: leading `/` and then leading `./` removed.
pub fn archive_entry_path(name: &str) -> (r: String)
    ensures
        r@ == strip_leading_dot_slashes(strip_leading_slashes(name@)),
{
    let chars = to_chars(name);
    let mut i: usize = 0;
    assert(chars@.skip(0) =~= chars@);
    while i < chars.len() && chars[i] == '/'
        invariant
            i <= chars.len(),
            chars@ == name@,
            strip_leading_slashes(name@) == strip_leading_slashes(chars@.skip(i as int)),
        decreases chars.len() - i,
    {
        assert(chars@.skip(i as int).drop_first() =~= chars@.skip(i + 1));
        i = i + 1;
    }
    assert(strip_leading_slashes(name@) == chars@.skip(i as int));
    let ghost mid = chars@.skip(i as int);
    while chars.len() - i >= 2 && chars[i] == '.' && chars[i + 1] == '/'
        invariant
            i <= chars.len(),
            chars@ == name@,
            strip_leading_dot_slashes(mid) == strip_leading_dot_slashes(chars@.skip(i as int)),
        decreases chars.len() - i,
    {
        assert(chars@.skip(i as int).skip(2) =~= chars@.skip(i + 2));
        i = i + 2;
    }
    let rest = slice_chars(chars.as_slice(), i, chars.len());
    assert(rest@ =~= chars@.skip(i as int));
    from_chars(rest.as_slice())
}

// ---------------------------------------------------------------------------
// Laws
// ---------------------------------------------------------------------------

/// A character that `sanitize_filename` never leaves in a name.
pub open spec fn is_reserved(c: char) -> bool {
    c == '<' || c == '>' || c == ':' || c == '"' || c == '/' || c == '\\' || c == '|' || c == '?'
        || c == '*' || (c as u32) < 0x20
}

proof fn lemma_trim_end_dots_spaces(s: Seq<char>)
    ensures
        trim_end_dots_spaces(s).len() <= s.len(),
        trim_end_dots_spaces(s) == s.take(trim_end_dots_spaces(s).len() as int),
        trim_end_dots_spaces(s).len() > 0 ==> trim_end_dots_spaces(s).last() != '.'
            && trim_end_dots_spaces(s).last() != ' ',
    decreases s.len(),
{
    if s.len() > 0 && (s.last() == '.' || s.last() == ' ') {
        lemma_trim_end_dots_spaces(s.drop_last());
        let t = trim_end_dots_spaces(s.drop_last());
        assert(s.drop_last().take(t.len() as int) =~= s.take(t.len() as int));
    } else {
        assert(s.take(s.len() as int) =~= s);
    }
}

/// A sanitized name is never empty, holds no reserved or control character,
/// and does not end in a dot or a space.
pub proof fn lemma_sanitized_is_safe(name: Seq<char>)
    ensures
        sanitized(name).len() > 0,
        forall|i: int| 0 <= i < sanitized(name).len() ==> !is_reserved(#[trigger] sanitized(name)[i]),
        sanitized(name).last() != '.',
        sanitized(name).last() != ' ',
{
    let mapped = Seq::new(name.len(), |i: int| safe_char(name[i]));
    lemma_trim_end_dots_spaces(mapped);
    let t = trim_end_dots_spaces(mapped);
    if t.len() == 0 {
        reveal_strlit("track");
    } else {
        assert forall|i: int| 0 <= i < t.len() implies !is_reserved(#[trigger] t[i]) by {
            assert(t[i] == mapped[i]);
        }
    }
}

proof fn lemma_keep_subset(s: Seq<Seq<char>>, f: spec_fn(Seq<char>) -> bool)
    ensures
        forall|x: Seq<char>| #[trigger] keep(s, f).contains(x) ==> s.contains(x) && f(x),
    decreases s.len(),
{
    if s.len() > 0 {
        lemma_keep_subset(s.drop_last(), f);
        assert forall|x: Seq<char>| #[trigger] keep(s, f).contains(x) implies s.contains(x) && f(x) by {
            let k = keep(s, f);
            let i = choose|i: int| 0 <= i < k.len() && k[i] == x;
            if f(s.last()) && i == k.len() - 1 {
                assert(s[s.len() - 1] == x);
            } else {
                assert(keep(s.drop_last(), f).contains(x));
                let j = choose|j: int| 0 <= j < s.drop_last().len() && s.drop_last()[j] == x;
                assert(s[j] == x);
            }
        }
    }
}

proof fn lemma_sorted_subset(s: Seq<Seq<char>>)
    ensures
        forall|x: Seq<char>| #[trigger] sort_by(s, path_name_le()).contains(x) ==> s.contains(x),
        sort_by(s, path_name_le()).len() == s.len(),
{
    broadcast use vstd::seq_lib::group_to_multiset_ensures;

    crate::order::lemma_sort_by_permutes(s, path_name_le());
    assert forall|x: Seq<char>| #[trigger] sort_by(s, path_name_le()).contains(x) implies s.contains(x) by {
        assert(sort_by(s, path_name_le()).to_multiset().count(x) > 0);
    }
}

proof fn lemma_first_where_found(s: Seq<Seq<char>>, f: spec_fn(Seq<char>) -> bool)
    ensures
        0 <= first_where(s, f) <= s.len(),
        first_where(s, f) < s.len() ==> f(s[first_where(s, f)]),
    decreases s.len(),
{
    if s.len() > 0 && !f(s[0]) {
        lemma_first_where_found(s.drop_first(), f);
    }
}

/// The chosen cover images are images of the folder; with a video there is at
/// most one, and without one the JPEGs are all kept.
pub proof fn lemma_chosen_images_are_images(
    images: Seq<Seq<char>>,
    background: Option<Seq<char>>,
    has_video: bool,
)
    ensures
        forall|x: Seq<char>| #[trigger] chosen_images(images, background, has_video).contains(x)
            ==> images.contains(x),
        has_video ==> chosen_images(images, background, has_video).len() <= 1,
        !has_video && keep(images, jpg_pred()).len() > 0 ==> chosen_images(
            images,
            background,
            has_video,
        ).len() == keep(images, jpg_pred()).len(),
{
    let kept = keep(images, jpg_pred());
    let jpgs = sort_by(kept, path_name_le());
    lemma_keep_subset(images, jpg_pred());
    lemma_sorted_subset(kept);
    lemma_sorted_subset(images);
    lemma_keep_subset(images, png_or_webp_pred());
    let r = chosen_images(images, background, has_video);
    if !has_video && kept.len() > 0 {
        assert(jpgs.len() == kept.len());
        if let Some(b) = background {
            lemma_first_where_found(jpgs, named_pred(b));
        }
        assert(r.len() == jpgs.len());
    }
    assert forall|x: Seq<char>| #[trigger] r.contains(x) implies images.contains(x) by {
        let i = choose|i: int| 0 <= i < r.len() && r[i] == x;
        if has_video {
            let m = match background {
                Some(b) => first_where(images, named_pred(b)),
                None => images.len() as int,
            };
            if let Some(b) = background {
                lemma_first_where_found(images, named_pred(b));
            }
            if m < images.len() {
                assert(images[m] == x);
            } else if jpgs.len() > 0 {
                assert(jpgs.contains(jpgs[0]));
            } else {
                let sorted = sort_by(images, path_name_le());
                lemma_first_where_found(sorted, png_or_webp_pred());
                let k = first_where(sorted, png_or_webp_pred());
                assert(sorted.contains(sorted[k]));
            }
        } else if jpgs.len() > 0 {
            let pos = match background {
                Some(b) => first_where(jpgs, named_pred(b)),
                None => jpgs.len() as int,
            };
            if let Some(b) = background {
                lemma_first_where_found(jpgs, named_pred(b));
            }
            if pos < jpgs.len() {
                let u = jpgs.update(0, jpgs[pos]).update(pos, jpgs[0]);
                if i == pos {
                    assert(jpgs.contains(jpgs[0]));
                } else if i == 0 {
                    assert(jpgs.contains(jpgs[pos]));
                } else {
                    assert(u[i] == jpgs[i]);
                    assert(jpgs.contains(jpgs[i]));
                }
            } else {
                assert(jpgs.contains(jpgs[i]));
            }
        } else {
            let sel = match background {
                Some(b) => first_where(images, named_png_or_webp_pred(b)),
                None => images.len() as int,
            };
            if let Some(b) = background {
                lemma_first_where_found(images, named_png_or_webp_pred(b));
            }
            lemma_first_where_found(images, png_or_webp_pred());
            if sel < images.len() {
                assert(images[sel] == x);
            } else {
                let k = first_where(images, png_or_webp_pred());
                assert(images[k] == x);
            }
        }
    }
}

proof fn lemma_lower_ascii_concat(a: Seq<char>, b: Seq<char>)
    ensures
        lower_ascii_seq(a + b) == lower_ascii_seq(a) + lower_ascii_seq(b),
{
    assert(lower_ascii_seq(a + b) =~= lower_ascii_seq(a) + lower_ascii_seq(b));
}

proof fn lemma_lower_ascii_literal(s: Seq<char>)
    requires
        forall|i: int| 0 <= i < s.len() ==> !('A' <= #[trigger] s[i] && s[i] <= 'Z'),
    ensures
        lower_ascii_seq(s) == s,
{
    assert(lower_ascii_seq(s) =~= s);
}

/// Deleting a track deletes its sidecar files: the `.gain` and
/// `.videooffset` files named after its file (see `sidecar_name`).
pub proof fn lemma_sidecars_deleted_with_track(track_path: Seq<char>, suffix: Seq<char>)
    requires
        file_name_of(track_path) is Some,
        suffix == "gain"@ || suffix == "videooffset"@,
    ensures
        deleted_with_track(track_path, sidecar_name(file_name_of(track_path).unwrap(), suffix)),
{
    reveal_strlit("gain");
    reveal_strlit("videooffset");
    reveal_strlit(".gain");
    reveal_strlit(".videooffset");
    reveal_strlit(".");
    let n = file_name_of(track_path).unwrap();
    let stem = stem_of_name(n);
    let sl = lower_ascii_seq(stem);
    let dsuf = "."@ + suffix;
    let mid = match extension_of_name(n) {
        Some(e) => if e.len() > 0 {
            "."@ + e
        } else {
            Seq::<char>::empty()
        },
        None => Seq::<char>::empty(),
    };
    let f = sidecar_name(n, suffix);
    assert(f =~= stem + mid + dsuf);
    lemma_lower_ascii_concat(stem + mid, dsuf);
    lemma_lower_ascii_concat(stem, mid);
    lemma_lower_ascii_literal(dsuf);
    let lm = lower_ascii_seq(mid);
    let fl = lower_ascii_seq(f);
    assert(fl =~= sl + lm + dsuf);
    assert(ends_with(fl, dsuf)) by {
        assert(fl.skip(fl.len() - dsuf.len()) =~= dsuf);
    }
    let base = fl.take(fl.len() - dsuf.len());
    assert(base =~= sl + lm);
    if lm.len() == 0 {
        assert(base =~= sl);
    } else {
        lemma_lower_ascii_concat("."@, mid.skip(1));
        assert(mid =~= "."@ + mid.skip(1));
        assert(lm[0] == '.');
        assert(base.take(sl.len() as int + 1) =~= sl + "."@);
    }
    assert(dsuf == ".gain"@ || dsuf == ".videooffset"@) by {
        if suffix == "gain"@ {
            assert(dsuf =~= ".gain"@);
        } else {
            assert(dsuf =~= ".videooffset"@);
        }
    }
    assert(is_track_sidecar(sl, fl));
}

/// Extensions (in lower case) of the media files that go with a track when
/// it is deleted.
pub open spec fn is_deleted_media_ext(e: Seq<char>) -> bool {
    is_audio_ext(e) || is_image_ext(e) || e == "mp4"@ || e == "webm"@ || e == "avi"@ || e
        == "flv"@
}

/// Deleting a track deletes every media file named like it: the same stem in
/// any ASCII case, and an audio, image or video extension of the kinds it
/// deletes.
pub proof fn lemma_media_named_like_track_deleted(track_path: Seq<char>, name: Seq<char>)
    requires
        path_stem(track_path) matches Some(stem) && lower_ascii_seq(stem_of_name(name))
            == lower_ascii_seq(stem),
        extension_of_name(name) matches Some(e) && is_deleted_media_ext(lower_ascii_seq(e)),
    ensures
        deleted_with_track(track_path, name),
{
    reveal_strlit("mp3");
    reveal_strlit("ogg");
    reveal_strlit("wav");
    reveal_strlit("flac");
    reveal_strlit("m4a");
    reveal_strlit("aac");
    reveal_strlit("jpg");
    reveal_strlit("jpeg");
    reveal_strlit("png");
    reveal_strlit("webp");
    reveal_strlit("mp4");
    reveal_strlit("webm");
    reveal_strlit("avi");
    reveal_strlit("flv");
    reveal_strlit(".");
    let e = extension_of_name(name).unwrap();
    crate::paths::lemma_last_dot(name);
    let nstem = stem_of_name(name);
    assert(name =~= nstem + "."@ + e);
    let sl = lower_ascii_seq(path_stem(track_path).unwrap());
    let le = lower_ascii_seq(e);
    lemma_lower_ascii_concat(nstem + "."@, e);
    lemma_lower_ascii_concat(nstem, "."@);
    lemma_lower_ascii_literal("."@);
    let fl = lower_ascii_seq(name);
    assert(fl =~= sl + "."@ + le);
    assert(ends_with(fl, le)) by {
        assert(fl.skip(fl.len() - le.len()) =~= le);
    }
    assert(starts_with(fl, sl)) by {
        assert(fl.take(sl.len() as int) =~= sl);
    }
    let rest = fl.skip(sl.len() as int);
    assert(rest[0] == '.');
    assert(is_track_media(sl, fl));
}

/// Deleting a track deletes its own file when that is an audio file, the
/// cover images found for it under its own name, and its video unless that
/// is an `.m4v` file.
pub proof fn lemma_track_files_deleted_with_track(track_path: Seq<char>, name: Seq<char>)
    requires
        path_stem(track_path) is Some,
    ensures
        name == file_name_of(track_path).unwrap() && (extension_of_name(name) matches Some(e)
            && is_audio_ext(lower_ascii_seq(e))) ==> deleted_with_track(track_path, name),
        is_exact_image(lower_ascii_seq(path_stem(track_path).unwrap()), name) ==> deleted_with_track(
            track_path,
            name,
        ),
        is_track_video(lower_ascii_seq(path_stem(track_path).unwrap()), name) && lower_ascii_seq(
            name_ext_text(name),
        ) != "m4v"@ ==> deleted_with_track(track_path, name),
{
    reveal_strlit("m4v");
    let sl = lower_ascii_seq(path_stem(track_path).unwrap());
    if name == file_name_of(track_path).unwrap() && (extension_of_name(name) matches Some(e)
        && is_audio_ext(lower_ascii_seq(e))) {
        lemma_media_named_like_track_deleted(track_path, name);
    }
    if is_exact_image(sl, name) || (is_track_video(sl, name) && lower_ascii_seq(
        name_ext_text(name),
    ) != "m4v"@) {
        reveal_strlit("jpg");
        reveal_strlit("jpeg");
        reveal_strlit("png");
        reveal_strlit("webp");
        reveal_strlit("avi");
        reveal_strlit("mp4");
        reveal_strlit("webm");
        reveal_strlit("flv");
        assert(extension_of_name(name) is Some) by {
            if extension_of_name(name) is None {
                assert(lower_ascii_seq(name_ext_text(name)).len() == 0);
            }
        }
        lemma_media_named_like_track_deleted(track_path, name);
    }
}

/// The search box lists positions of the track list, each once, in list
/// order.
pub proof fn lemma_search_results_in_list_order(texts: Seq<Seq<char>>, part: Seq<char>)
    requires
        texts.len() <= usize::MAX + 1,
    ensures
        ({
            let r = positions_containing(texts, part);
            &&& forall|i: int| 0 <= i < r.len() ==> #[trigger] r[i] < texts.len()
            &&& forall|i: int, j: int| 0 <= i < j < r.len() ==> #[trigger] r[i] < #[trigger] r[j]
        }),
    decreases texts.len(),
{
    if texts.len() > 0 {
        let prev = positions_containing(texts.drop_last(), part);
        lemma_search_results_in_list_order(texts.drop_last(), part);
        let r = positions_containing(texts, part);
        if contains(texts.last(), part) {
            let last = (texts.len() - 1) as usize;
            assert(r == prev.push(last));
            assert(last == texts.len() - 1);
            assert forall|i: int| 0 <= i < r.len() implies #[trigger] r[i] < texts.len() by {
                if i < prev.len() {
                    assert(r[i] == prev[i]);
                }
            }
            assert forall|i: int, j: int| 0 <= i < j < r.len() implies #[trigger] r[i]
                < #[trigger] r[j] by {
                assert(r[i] == prev[i]);
                if j < prev.len() {
                    assert(r[j] == prev[j]);
                }
            }
        }
    }
}

/// A name that `sanitize_filename` leaves as it is: it is not empty, holds
/// no reserved or control character, and does not end in a dot or a space.
pub open spec fn is_clean_name(name: Seq<char>) -> bool {
    &&& name.len() > 0
    &&& forall|i: int| 0 <= i < name.len() ==> !is_reserved(#[trigger] name[i])
    &&& name.last() != '.'
    &&& name.last() != ' '
}

/// A clean name is kept as it is.
pub proof fn lemma_sanitized_keeps_clean_names(name: Seq<char>)
    requires
        is_clean_name(name),
    ensures
        sanitized(name) == name,
{
    let mapped = Seq::new(name.len(), |i: int| safe_char(name[i]));
    assert(mapped =~= name) by {
        assert forall|i: int| 0 <= i < name.len() implies mapped[i] == name[i] by {
            assert(!is_reserved(name[i]));
        }
    }
    assert(trim_end_dots_spaces(mapped) == mapped);
}

/// Sanitizing twice is sanitizing once.
pub proof fn lemma_sanitize_is_idempotent(name: Seq<char>)
    ensures
        sanitized(sanitized(name)) == sanitized(name),
{
    lemma_sanitized_is_safe(name);
    lemma_sanitized_keeps_clean_names(sanitized(name));
}

/// A position is listed by the search exactly when its text contains the
/// searched part.
pub proof fn lemma_positions_containing_members(texts: Seq<Seq<char>>, part: Seq<char>, i: int)
    requires
        texts.len() <= usize::MAX + 1,
        0 <= i < texts.len(),
    ensures
        positions_containing(texts, part).contains(i as usize) <==> contains(texts[i], part),
    decreases texts.len(),
{
    let r = positions_containing(texts, part);
    let prev = positions_containing(texts.drop_last(), part);
    lemma_search_results_in_list_order(texts.drop_last(), part);
    if i < texts.len() - 1 {
        lemma_positions_containing_members(texts.drop_last(), part, i);
        assert(texts.drop_last()[i] == texts[i]);
        if contains(texts.last(), part) {
            assert(r == prev.push((texts.len() - 1) as usize));
            if r.contains(i as usize) {
                let k = choose|k: int| 0 <= k < r.len() && r[k] == i as usize;
                if k < prev.len() {
                    assert(prev[k] == r[k]);
                }
            }
            if prev.contains(i as usize) {
                let k = choose|k: int| 0 <= k < prev.len() && prev[k] == i as usize;
                assert(r[k] == prev[k]);
            }
        }
    } else {
        if contains(texts.last(), part) {
            assert(r == prev.push((texts.len() - 1) as usize));
            assert(r[r.len() - 1] == i as usize);
        } else {
            if prev.contains(i as usize) {
                let k = choose|k: int| 0 <= k < prev.len() && prev[k] == i as usize;
                assert(prev[k] < texts.drop_last().len());
            }
        }
    }
}

/// The search ignores case: queries with the same lowercase form find the
/// same tracks.
pub proof fn lemma_search_ignores_case(names: Seq<Seq<char>>, q1: Seq<char>, q2: Seq<char>)
    requires
        unicode_lowercase(q1) == unicode_lowercase(q2),
    ensures
        matching_indices(names, q1) == matching_indices(names, q2),
{
}

/// Searching for a track's own name, in any case, finds that track.
pub proof fn lemma_search_finds_own_name(names: Seq<Seq<char>>, i: int, query: Seq<char>)
    requires
        names.len() <= usize::MAX + 1,
        0 <= i < names.len(),
        unicode_lowercase(query) == unicode_lowercase(names[i]),
    ensures
        matching_indices(names, query).contains(i as usize),
{
    let lowered = names.map_values(|n: Seq<char>| unicode_lowercase(n));
    let q = unicode_lowercase(query);
    assert(lowered[i] == q);
    assert(crate::text::occurs_at(lowered[i], q, 0)) by {
        assert(lowered[i].subrange(0, q.len() as int) =~= q);
    }
    lemma_positions_containing_members(lowered, q, i);
}

/// The title of a song file `stem.ext` (its extension holding no dot) comes
/// from the whole stem, up to the last dot: it is the stem with a leading track
/// number and the white space after it removed, and it is the stem itself when
/// that does not start with a digit.
pub proof fn lemma_song_title_from_stem(stem: Seq<char>, ext: Seq<char>)
    requires
        stem.len() > 0,
        !ext.contains('.'),
        file_name_of(stem + "."@ + ext) == Some(stem + "."@ + ext),
    ensures
        ({
            let t = song_title(stem + "."@ + ext);
            &&& t.len() <= stem.len()
            &&& stem.skip(stem.len() - t.len()) == t
            &&& forall|j: int|
                0 <= j < stem.len() - t.len() ==> is_digit(#[trigger] stem[j]) || is_white_space(
                    stem[j],
                )
            &&& !is_digit(stem[0]) ==> t == stem
        }),
{
    reveal_strlit(".");
    let n = stem + "."@ + ext;
    crate::paths::lemma_last_dot(n);
    let d = stem.len() as int;
    assert(n[d] == '.');
    assert forall|j: int| d < j < n.len() implies n[j] != '.' by {
        assert(n[j] == ext[j - d - 1]);
        assert(ext.contains(ext[j - d - 1]));
    }
    assert(crate::paths::last_dot(n) == d);
    assert(stem_of_name(n) =~= stem);
    let k = leading_digits(stem);
    lemma_leading_digits_prefix(stem);
    let t = song_title(n);
    if k == 0 || k == stem.len() {
        assert(t == stem);
        assert(stem.skip(0) =~= stem);
    } else {
        let rest = stem.skip(k as int);
        crate::text::lemma_trim_start_suffix(rest);
        let m = rest.len() - t.len();
        assert(stem.skip(stem.len() - t.len()) =~= rest.skip(m));
        assert forall|j: int| 0 <= j < stem.len() - t.len() implies is_digit(#[trigger] stem[j])
            || is_white_space(stem[j]) by {
            if j >= k {
                assert(stem[j] == rest[j - k]);
            }
        }
    }
}

/// Number of leading digits, and what they are.
proof fn lemma_leading_digits_prefix(s: Seq<char>)
    ensures
        leading_digits(s) <= s.len(),
        forall|j: int| 0 <= j < leading_digits(s) ==> is_digit(#[trigger] s[j]),
        leading_digits(s) < s.len() ==> !is_digit(s[leading_digits(s) as int]),
    decreases s.len(),
{
    if s.len() > 0 && is_digit(s[0]) {
        lemma_leading_digits_prefix(s.drop_first());
        assert forall|j: int| 0 <= j < leading_digits(s) implies is_digit(#[trigger] s[j]) by {
            if j > 0 {
                assert(s[j] == s.drop_first()[j - 1]);
            }
        }
    }
}

/// The title of a flattened folder is always usable as a file name, whether
/// it comes from the beatmap or from the folder's name: it is not empty,
/// holds no reserved or control character (no path separator among them),
/// and does not end in a dot or a space.
pub proof fn lemma_folder_title_is_clean(folder: Seq<char>, scan_title: Option<Seq<char>>)
    ensures
        is_clean_name(folder_title(folder, scan_title)),
{
    let raw = match scan_title {
        Some(t) => t,
        None => match file_name_of(folder) {
            Some(n) => clean_folder(n),
            None => "Track"@,
        },
    };
    lemma_sanitized_is_safe(raw);
}

/// `keep` keeps every element that passes.
proof fn lemma_keep_contains(s: Seq<Seq<char>>, f: spec_fn(Seq<char>) -> bool, i: int)
    requires
        0 <= i < s.len(),
        f(s[i]),
    ensures
        keep(s, f).contains(s[i]),
    decreases s.len(),
{
    let k = keep(s, f);
    if i == s.len() - 1 {
        assert(k[k.len() - 1] == s[i]);
    } else {
        lemma_keep_contains(s.drop_last(), f, i);
        assert(s.drop_last()[i] == s[i]);
        let prev = keep(s.drop_last(), f);
        let j = choose|j: int| 0 <= j < prev.len() && prev[j] == s[i];
        if f(s.last()) {
            assert(k[j] == prev[j]);
        }
    }
}

/// When a video named like the track is found, the track still gets one
/// cover whenever an image is named like it: exactly one, an image of the
/// folder named like the track, and a JPEG when there is one.
pub proof fn lemma_video_track_keeps_a_cover(track_path: Seq<char>, names: Seq<Seq<char>>)
    requires
        path_stem(track_path) is Some,
    ensures
        ({
            let sl = lower_ascii_seq(path_stem(track_path).unwrap());
            let m = track_media(track_path, names);
            m.1 is Some && (exists|i: int| 0 <= i < names.len() && #[trigger] is_exact_image(
                sl,
                names[i],
            )) ==> {
                &&& m.0.len() == 1
                &&& is_exact_image(sl, m.0[0])
                &&& names.contains(m.0[0])
                &&& (exists|i: int|
                    0 <= i < names.len() && #[trigger] is_exact_image(sl, names[i]) && image_rank(
                        names[i],
                    ) == 0) ==> image_rank(m.0[0]) == 0
            }
        }),
{
    let sl = lower_ascii_seq(path_stem(track_path).unwrap());
    let m = track_media(track_path, names);
    let exact = keep(names, exact_pred(sl));
    let k0 = keep(exact, rank_pred(0));
    let k1 = keep(exact, rank_pred(1));
    let ordered = k0 + k1;
    lemma_keep_subset(names, exact_pred(sl));
    lemma_keep_subset(exact, rank_pred(0));
    lemma_keep_subset(exact, rank_pred(1));
    if m.1 is Some && (exists|i: int| 0 <= i < names.len() && #[trigger] is_exact_image(
        sl,
        names[i],
    )) {
        let v = first_where(names, video_pred(sl));
        lemma_first_where_found(names, video_pred(sl));
        assert(v < names.len());
        let i = choose|i: int| 0 <= i < names.len() && #[trigger] is_exact_image(sl, names[i]);
        lemma_keep_contains(names, exact_pred(sl), i);
        let x = names[i];
        let j = choose|j: int| 0 <= j < exact.len() && exact[j] == x;
        if image_rank(x) == 0 {
            lemma_keep_contains(exact, rank_pred(0), j);
        } else {
            lemma_keep_contains(exact, rank_pred(1), j);
        }
        assert(ordered.len() > 0);
        assert(m.0 == seq![ordered[0]]);
        let c = ordered[0];
        if k0.len() > 0 {
            assert(c == k0[0]);
            assert(k0.contains(k0[0]));
        } else {
            assert(c == k1[0]);
            assert(k1.contains(k1[0]));
        }
        assert(exact.contains(c));
        if exists|i: int| 0 <= i < names.len() && #[trigger] is_exact_image(sl, names[i])
            && image_rank(names[i]) == 0 {
            let i2 = choose|i2: int|
                0 <= i2 < names.len() && #[trigger] is_exact_image(sl, names[i2]) && image_rank(
                    names[i2],
                ) == 0;
            lemma_keep_contains(names, exact_pred(sl), i2);
            let j2 = choose|j2: int| 0 <= j2 < exact.len() && exact[j2] == names[i2];
            lemma_keep_contains(exact, rank_pred(0), j2);
            assert(k0.len() > 0);
            assert(k0.contains(k0[0]));
        }
    }
}

} // verus!
