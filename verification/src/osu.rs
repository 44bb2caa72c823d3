//! What the library reads from `.osu` beatmap files: the artist and title, the
//! background image, and the offset of the background video.
use vstd::prelude::*;
use crate::text::{
    before_char, eq_ignore_ascii_case, eq_ignore_ascii_case_chars,
    find_char, find_char_index, from_chars, lines, parse_i64, parse_i64_chars, slice_chars,
    split_lines, starts_with, starts_with_str, to_chars, trim, trim_chars, trim_start,
    trim_start_chars, views,
};

verus! {

// ---------------------------------------------------------------------------
// Artist and title
// ---------------------------------------------------------------------------

/// The artist and title that a sequence of lines gives: the last `Artist:` line
/// and the last `Title:` line, each with its value trimmed.
pub open spec fn metadata_of_lines(ls: Seq<Seq<char>>) -> (Option<Seq<char>>, Option<Seq<char>>)
    decreases ls.len(),
{
    if ls.len() == 0 {
        (None, None)
    } else {
        let prev = metadata_of_lines(ls.drop_last());
        let l = ls.last();
        if starts_with(l, "Artist:"@) {
            (Some(trim(l.skip(7))), prev.1)
        } else if starts_with(l, "Title:"@) {
            (prev.0, Some(trim(l.skip(6))))
        } else {
            prev
        }
    }
}

/// The artist and title of a beatmap.
pub open spec fn osu_metadata(content: Seq<char>) -> (Option<Seq<char>>, Option<Seq<char>>) {
    metadata_of_lines(lines(content))
}

fn opt_string(v: &Option<Vec<char>>) -> (r: Option<String>)
    ensures
        r.is_some() == v.is_some(),
        r matches Some(s) ==> s@ == v.unwrap()@,
{
    match v {
        Some(c) => Some(from_chars(c.as_slice())),
        None => None,
    }
}

/// The artist and title in a beatmap's text.
pub fn parse_osu_metadata(content: &str) -> (r: (Option<String>, Option<String>))
    ensures
        r.0.is_some() == osu_metadata(content@).0.is_some(),
        r.0 matches Some(a) ==> osu_metadata(content@).0 == Some(a@),
        r.1.is_some() == osu_metadata(content@).1.is_some(),
        r.1 matches Some(t) ==> osu_metadata(content@).1 == Some(t@),
{
    let chars = to_chars(content);
    let ls = split_lines(chars.as_slice());
    let ghost all = views(ls@);
    let mut artist: Option<Vec<char>> = None;
    let mut title: Option<Vec<char>> = None;
    let mut i: usize = 0;
    while i < ls.len()
        invariant
            i <= ls.len(),
            all == views(ls@),
            all == lines(content@),
            artist.is_some() == metadata_of_lines(all.take(i as int)).0.is_some(),
            artist matches Some(a) ==> metadata_of_lines(all.take(i as int)).0 == Some(a@),
            title.is_some() == metadata_of_lines(all.take(i as int)).1.is_some(),
            title matches Some(t) ==> metadata_of_lines(all.take(i as int)).1 == Some(t@),
        decreases ls.len() - i,
    {
        let line = &ls[i];
        assert(all.take(i + 1).drop_last() =~= all.take(i as int));
        assert(all.take(i + 1).last() == line@);
        if starts_with_str(line.as_slice(), "Artist:") {
            proof {
                reveal_strlit("Artist:");
            }
            let rest = slice_chars(line.as_slice(), 7, line.len());
            artist = Some(trim_chars(rest.as_slice()));
        } else if starts_with_str(line.as_slice(), "Title:") {
            proof {
                reveal_strlit("Title:");
            }
            let rest = slice_chars(line.as_slice(), 6, line.len());
            title = Some(trim_chars(rest.as_slice()));
        }
        i = i + 1;
    }
    assert(all.take(ls.len() as int) =~= all);
    (opt_string(&artist), opt_string(&title))
}

// ---------------------------------------------------------------------------
// Background image
// ---------------------------------------------------------------------------

/// The file name a line names as the background: a line that reads, after
/// leading white space, `0,0,"name"` (anything may follow), with a non-empty
/// name.  This is the pattern `^\s*0,0,"([^"]+)"`.
pub open spec fn background_in_line(l: Seq<char>) -> Option<Seq<char>> {
    let t = trim_start(l);
    if starts_with(t, "0,0,\""@) {
        let rest = t.skip(5);
        let k = find_char(rest, '"');
        if 0 < k && k < rest.len() {
            Some(rest.take(k as int))
        } else {
            None
        }
    } else {
        None
    }
}

/// The background of the first line that names one.
pub open spec fn first_background(ls: Seq<Seq<char>>) -> Option<Seq<char>>
    decreases ls.len(),
{
    if ls.len() == 0 {
        None
    } else {
        match background_in_line(ls[0]) {
            Some(b) => Some(b),
            None => first_background(ls.drop_first()),
        }
    }
}

/// The background image a beatmap names.
pub open spec fn osu_background(content: Seq<char>) -> Option<Seq<char>> {
    first_background(lines(content))
}

fn background_in_line_chars(l: &[char]) -> (r: Option<Vec<char>>)
    ensures
        r.is_some() == background_in_line(l@).is_some(),
        r matches Some(b) ==> background_in_line(l@) == Some(b@),
{
    let t = trim_start_chars(l);
    if !starts_with_str(t.as_slice(), "0,0,\"") {
        return None;
    }
    proof {
        reveal_strlit("0,0,\"");
    }
    let rest = slice_chars(t.as_slice(), 5, t.len());
    assert(rest@ =~= t@.skip(5));
    let k = find_char_index(rest.as_slice(), '"');
    if 0 < k && k < rest.len() {
        let b = slice_chars(rest.as_slice(), 0, k);
        assert(b@ =~= rest@.take(k as int));
        Some(b)
    } else {
        None
    }
}

/// The background image named in a beatmap's text.
pub fn extract_background(content: &str) -> (r: Option<String>)
    ensures
        r.is_some() == osu_background(content@).is_some(),
        r matches Some(b) ==> osu_background(content@) == Some(b@),
{
    let chars = to_chars(content);
    let ls = split_lines(chars.as_slice());
    let ghost all = views(ls@);
    let mut i: usize = 0;
    assert(all.skip(0) =~= all);
    while i < ls.len()
        invariant
            i <= ls.len(),
            all == views(ls@),
            all == lines(content@),
            first_background(all) == first_background(all.skip(i as int)),
        decreases ls.len() - i,
    {
        assert(all.skip(i as int)[0] == ls@[i as int]@);
        match background_in_line_chars(ls[i].as_slice()) {
            Some(b) => {
                return Some(from_chars(b.as_slice()));
            },
            None => {},
        }
        assert(all.skip(i as int).drop_first() =~= all.skip(i + 1));
        i = i + 1;
    }
    None
}

// ---------------------------------------------------------------------------
// Video offset
// ---------------------------------------------------------------------------

/// The offset that the `Video,` line of a beatmap's `[Events]` section gives:
/// lines before the section are skipped, the section ends at the next line
/// that starts with `[`, and the first `Video,offset,...` line whose offset
/// reads as a number gives the result.
pub open spec fn video_offset_in_lines(ls: Seq<Seq<char>>, in_events: bool) -> Option<int>
    decreases ls.len(),
{
    if ls.len() == 0 {
        None
    } else {
        let t = trim(ls[0]);
        if eq_ignore_ascii_case(t, "[Events]"@) {
            video_offset_in_lines(ls.drop_first(), true)
        } else if in_events && starts_with(t, "["@) {
            None
        } else if !in_events {
            video_offset_in_lines(ls.drop_first(), false)
        } else if starts_with(t, "Video,"@) && parse_i64(trim(before_char(t.skip(6), ','))).is_some() {
            parse_i64(trim(before_char(t.skip(6), ',')))
        } else {
            video_offset_in_lines(ls.drop_first(), true)
        }
    }
}

/// The video offset a beatmap gives, in milliseconds.
pub open spec fn osu_video_offset(content: Seq<char>) -> Option<int> {
    video_offset_in_lines(lines(content), false)
}

/// The offset of a `Video,` line, when it is one and its offset reads.
fn video_line_offset(t: &[char]) -> (r: Option<i64>)
    ensures
        r.is_some() == (starts_with(t@, "Video,"@) && parse_i64(
            trim(before_char(t@.skip(6), ',')),
        ).is_some()),
        r matches Some(v) ==> parse_i64(trim(before_char(t@.skip(6), ','))) == Some(v as int),
{
    if !starts_with_str(t, "Video,") {
        return None;
    }
    proof {
        reveal_strlit("Video,");
    }
    let rest = slice_chars(t, 6, t.len());
    assert(rest@ =~= t@.skip(6));
    let k = find_char_index(rest.as_slice(), ',');
    let first = slice_chars(rest.as_slice(), 0, k);
    let trimmed = trim_chars(first.as_slice());
    parse_i64_chars(trimmed.as_slice())
}

/// The video offset given in a beatmap's text.
pub fn extract_video_offset(content: &str) -> (r: Option<i64>)
    ensures
        r.is_some() == osu_video_offset(content@).is_some(),
        r matches Some(v) ==> osu_video_offset(content@) == Some(v as int),
{
    let chars = to_chars(content);
    let ls = split_lines(chars.as_slice());
    let ghost all = views(ls@);
    let mut in_events = false;
    let mut i: usize = 0;
    assert(all.skip(0) =~= all);
    while i < ls.len()
        invariant
            i <= ls.len(),
            all == views(ls@),
            all == lines(content@),
            video_offset_in_lines(all, false) == video_offset_in_lines(all.skip(i as int), in_events),
        decreases ls.len() - i,
    {
        assert(all.skip(i as int)[0] == ls@[i as int]@);
        assert(all.skip(i as int).drop_first() =~= all.skip(i + 1));
        let trimmed = trim_chars(ls[i].as_slice());
        let header = to_chars("[Events]");
        if eq_ignore_ascii_case_chars(trimmed.as_slice(), header.as_slice()) {
            in_events = true;
        } else if in_events && starts_with_str(trimmed.as_slice(), "[") {
            return None;
        } else if in_events {
            match video_line_offset(trimmed.as_slice()) {
                Some(v) => {
                    return Some(v);
                },
                None => {},
            }
        }
        i = i + 1;
    }
    None
}

} // verus!
