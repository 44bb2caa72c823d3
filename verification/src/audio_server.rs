//! The local media server: which files are registered for which track, the
//! URLs the player is given, and how a request names a file.
//!
//! The state that the server shares between requests is an `AudioServer`
//! value; the program holds one behind a lock.
use vstd::prelude::*;
use std::collections::HashMap;
use crate::clock::since_unix_epoch;
use crate::paths::{path_extension, path_extension_chars};
use crate::text::{
    after_char, before_char, chars_eq_str, decimal, eq_ignore_ascii_case,
    eq_ignore_ascii_case_chars, find_char_index, from_chars, lemma_decimal_digits,
    lemma_find_char, parse_u64_chars, parse_unsigned, parse_usize_chars, push_decimal, push_str,
    slice_chars, starts_with, starts_with_str, to_chars, to_lowercase, unicode_lowercase,
    all_digits, find_char,
};

verus! {

broadcast use vstd::std_specs::hash::group_hash_axioms;

/// The files that belong to one track.
pub struct TrackMedia {
    pub audio: String,
    pub video: Option<String>,
    pub covers: Vec<String>,
    pub video_offset_ms: i64,
}

/// Which of a track's files a request asks for.
#[derive(Clone, Copy, Debug, PartialEq, Eq, Structural)]
pub enum MediaKind {
    Audio,
    Video,
    Cover(usize),
}

/// What the server does with a request.
#[derive(Debug)]
pub enum RequestRoute {
    /// A CORS preflight: answered with an empty 204.
    Preflight,
    /// The URL names no registered file: answered with 404.
    NotFound,
    /// The file to send.
    File(String),
}

/// How much of a file a response carries.
#[derive(Clone, Copy, Debug, PartialEq, Eq, Structural)]
pub enum RangePlan {
    /// No byte range was asked for: the whole file, status 200.
    Whole,
    /// The bytes `start..=end`, status 206.
    Partial { start: u64, end: u64 },
    /// The range cannot be served: status 416.
    Unsatisfiable,
}

/// The registry of track media, the port the server listens on, and the value
/// that URLs carry so that the player fetches files anew after a rescan.
pub struct AudioServer {
    registry: HashMap<usize, TrackMedia>,
    port: Option<u16>,
    cache_buster: u64,
}

impl AudioServer {
    /// The registered media, by track id.
    pub closed spec fn registry_map(&self) -> Map<usize, TrackMedia> {
        self.registry@
    }

    /// The port, once it is known.
    pub closed spec fn port_value(&self) -> Option<u16> {
        self.port
    }

    /// The value that URLs carry in `?v=`.
    pub closed spec fn cache_buster_value(&self) -> u64 {
        self.cache_buster
    }

    /// A server state with nothing registered, no port and a zero cache buster.
    pub fn new() -> (r: AudioServer)
        ensures
            r.registry_map() == Map::<usize, TrackMedia>::empty(),
            r.port_value().is_none(),
            r.cache_buster_value() == 0,
    {
        AudioServer { registry: HashMap::new(), port: None, cache_buster: 0 }
    }
}

// ---------------------------------------------------------------------------
// URLs
// ---------------------------------------------------------------------------

/// The origin of every media URL.
pub open spec fn server_origin(port: u16) -> Seq<char> {
    "http://127.0.0.1:"@ + decimal(port as nat)
}

/// The path and query of the URL of a track's file.
pub open spec fn media_path(kind: MediaKind, id: usize, version: u64) -> Seq<char> {
    match kind {
        MediaKind::Audio => "/track/"@ + decimal(id as nat) + "?v="@ + decimal(version as nat),
        MediaKind::Video => "/video/"@ + decimal(id as nat) + "?v="@ + decimal(version as nat),
        MediaKind::Cover(idx) => "/cover/"@ + decimal(id as nat) + "/"@ + decimal(idx as nat)
            + "?v="@ + decimal(version as nat),
    }
}

/// The full URL of a track's file.
pub open spec fn media_url(port: u16, kind: MediaKind, id: usize, version: u64) -> Seq<char> {
    server_origin(port) + media_path(kind, id, version)
}

/// The number a URL segment holds, as `str::parse::<usize>` reads it.
pub open spec fn parse_id(s: Seq<char>) -> Option<usize> {
    match parse_unsigned(s, usize::MAX as nat) {
        Some(v) => Some(v as usize),
        None => None,
    }
}

/// What a request URL asks for: `/track/{id}`, `/video/{id}` or
/// `/cover/{id}/{index}`, with anything after `?` ignored.
pub open spec fn request_kind(url: Seq<char>) -> Option<(MediaKind, usize)> {
    let path = before_char(url, '?');
    if starts_with(path, "/video/"@) {
        match parse_id(path.skip(7)) {
            Some(id) => Some((MediaKind::Video, id)),
            None => None,
        }
    } else if starts_with(path, "/track/"@) {
        match parse_id(path.skip(7)) {
            Some(id) => Some((MediaKind::Audio, id)),
            None => None,
        }
    } else if starts_with(path, "/cover/"@) {
        let rest = path.skip(7);
        match parse_id(before_char(rest, '/')) {
            Some(id) => match after_char(rest, '/') {
                Some(more) => match parse_id(before_char(more, '/')) {
                    Some(idx) => Some((MediaKind::Cover(idx), id)),
                    None => None,
                },
                None => None,
            },
            None => None,
        }
    } else {
        None
    }
}

/// The file registered for what a request asks for.
pub open spec fn media_file(registry: Map<usize, TrackMedia>, kind: MediaKind, id: usize) -> Option<
    Seq<char>,
> {
    if registry.contains_key(id) {
        let media = registry[id];
        match kind {
            MediaKind::Audio => Some(media.audio@),
            MediaKind::Video => match media.video {
                Some(v) => Some(v@),
                None => None,
            },
            MediaKind::Cover(idx) => if idx < media.covers@.len() {
                Some(media.covers@[idx as int]@)
            } else {
                None
            },
        }
    } else {
        None
    }
}

/// The route of a request.
pub open spec fn route(registry: Map<usize, TrackMedia>, is_options: bool, url: Seq<char>) -> Option<
    Option<Seq<char>>,
> {
    if is_options {
        None
    } else {
        match request_kind(url) {
            Some((kind, id)) => Some(media_file(registry, kind, id)),
            None => Some(None),
        }
    }
}

/// Sets the value that URLs carry in `?v=`.
pub fn set_cache_buster(server: &mut AudioServer, secs: u64)
    ensures
        final(server).cache_buster_value() == secs,
        final(server).registry_map() == old(server).registry_map(),
        final(server).port_value() == old(server).port_value(),
{
    server.cache_buster = secs;
}

/// Sets the cache buster to the current time in whole seconds since the epoch,
/// so that URLs built afterwards differ from earlier ones.  Returns the
/// seconds the clock gave, which is the value now stored.
pub fn update_cache_buster(server: &mut AudioServer) -> (r: u64)
    ensures
        final(server).cache_buster_value() == r,
        final(server).registry_map() == old(server).registry_map(),
        final(server).port_value() == old(server).port_value(),
{
    let (secs, _) = since_unix_epoch();
    set_cache_buster(server, secs);
    secs
}

pub fn get_cache_buster(server: &AudioServer) -> (r: u64)
    ensures
        r == server.cache_buster_value(),
{
    server.cache_buster
}

/// The port of the running server, once it is known.
pub fn audio_server_port(server: &AudioServer) -> (r: Option<u16>)
    ensures
        r == server.port_value(),
{
    server.port
}

/// Records the port of the running server.  It is set once.
pub fn init_audio_server_port(server: &mut AudioServer, port: u16)
    requires
        old(server).port_value().is_none(),
    ensures
        final(server).port_value() == Some(port),
        final(server).registry_map() == old(server).registry_map(),
        final(server).cache_buster_value() == old(server).cache_buster_value(),
{
    server.port = Some(port);
}

/// Records the port of the running server unless one is already recorded.
/// Returns whether it was recorded; a port once set is never replaced.
pub fn claim_audio_server_port(server: &mut AudioServer, port: u16) -> (r: bool)
    ensures
        r == old(server).port_value().is_none(),
        r ==> final(server).port_value() == Some(port),
        !r ==> final(server).port_value() == old(server).port_value(),
        final(server).registry_map() == old(server).registry_map(),
        final(server).cache_buster_value() == old(server).cache_buster_value(),
{
    if server.port.is_some() {
        return false;
    }
    init_audio_server_port(server, port);
    true
}

fn push_origin(s: &mut String, port: u16)
    ensures
        final(s)@ == old(s)@ + server_origin(port),
{
    push_str(s, "http://127.0.0.1:");
    push_decimal(s, port as u64);
    assert(old(s)@ + server_origin(port) =~= old(s)@ + "http://127.0.0.1:"@ + decimal(port as nat));
}

fn push_version(s: &mut String, version: u64)
    ensures
        final(s)@ == old(s)@ + "?v="@ + decimal(version as nat),
{
    push_str(s, "?v=");
    push_decimal(s, version);
}

/// The URL of a track's audio.
pub fn audio_url(server: &AudioServer, id: usize) -> (r: String)
    requires
        server.port_value().is_some(),
    ensures
        r@ == media_url(server.port_value().unwrap(), MediaKind::Audio, id, server.cache_buster_value()),
{
    let port = server.port.unwrap();
    let mut r = String::new();
    push_origin(&mut r, port);
    push_str(&mut r, "/track/");
    push_decimal(&mut r, id as u64);
    push_version(&mut r, server.cache_buster);
    assert(r@ =~= media_url(port, MediaKind::Audio, id, server.cache_buster));
    r
}

/// The URL of a track's video.
pub fn video_url(server: &AudioServer, id: usize) -> (r: String)
    requires
        server.port_value().is_some(),
    ensures
        r@ == media_url(server.port_value().unwrap(), MediaKind::Video, id, server.cache_buster_value()),
{
    let port = server.port.unwrap();
    let mut r = String::new();
    push_origin(&mut r, port);
    push_str(&mut r, "/video/");
    push_decimal(&mut r, id as u64);
    push_version(&mut r, server.cache_buster);
    assert(r@ =~= media_url(port, MediaKind::Video, id, server.cache_buster));
    r
}

/// The URL of a track's `idx`-th cover image.
pub fn cover_url(server: &AudioServer, id: usize, idx: usize) -> (r: String)
    requires
        server.port_value().is_some(),
    ensures
        r@ == media_url(
            server.port_value().unwrap(),
            MediaKind::Cover(idx),
            id,
            server.cache_buster_value(),
        ),
{
    let port = server.port.unwrap();
    let mut r = String::new();
    push_origin(&mut r, port);
    push_str(&mut r, "/cover/");
    push_decimal(&mut r, id as u64);
    push_str(&mut r, "/");
    push_decimal(&mut r, idx as u64);
    push_version(&mut r, server.cache_buster);
    assert(r@ =~= media_url(port, MediaKind::Cover(idx), id, server.cache_buster));
    r
}

/// The registered media, by track id.
pub fn track_registry(server: &AudioServer) -> (r: &HashMap<usize, TrackMedia>)
    ensures
        r@ == server.registry_map(),
{
    &server.registry
}

/// Registers the files of track `id`, replacing what was registered for it.
pub fn register_track(
    server: &mut AudioServer,
    id: usize,
    audio_path: String,
    video_path: Option<String>,
    covers: Vec<String>,
    video_offset_ms: i64,
)
    ensures
        final(server).registry_map() == old(server).registry_map().insert(
            id,
            TrackMedia { audio: audio_path, video: video_path, covers, video_offset_ms },
        ),
        final(server).port_value() == old(server).port_value(),
        final(server).cache_buster_value() == old(server).cache_buster_value(),
{
    server.registry.insert(
        id,
        TrackMedia { audio: audio_path, video: video_path, covers, video_offset_ms },
    );
}

/// The URLs the player fetches a track's files from.
pub struct TrackLinks {
    pub url: String,
    pub cover_urls: Vec<String>,
    pub video_url: Option<String>,
}

/// Registers the files of track `id` and returns the URLs they are served at:
/// the audio, one per cover in order, and the video if there is one.
pub fn publish_track(
    server: &mut AudioServer,
    id: usize,
    audio_path: String,
    video_path: Option<String>,
    covers: Vec<String>,
    video_offset_ms: i64,
) -> (r: TrackLinks)
    requires
        old(server).port_value().is_some(),
    ensures
        final(server).registry_map() == old(server).registry_map().insert(
            id,
            TrackMedia { audio: audio_path, video: video_path, covers, video_offset_ms },
        ),
        final(server).port_value() == old(server).port_value(),
        final(server).cache_buster_value() == old(server).cache_buster_value(),
        r.url@ == media_url(
            old(server).port_value().unwrap(),
            MediaKind::Audio,
            id,
            old(server).cache_buster_value(),
        ),
        r.cover_urls@.len() == covers@.len(),
        forall|i: int|
            0 <= i < covers@.len() ==> #[trigger] r.cover_urls@[i]@ == media_url(
                old(server).port_value().unwrap(),
                MediaKind::Cover(i as usize),
                id,
                old(server).cache_buster_value(),
            ),
        r.video_url is Some == video_path is Some,
        r.video_url matches Some(u) ==> u@ == media_url(
            old(server).port_value().unwrap(),
            MediaKind::Video,
            id,
            old(server).cache_buster_value(),
        ),
{
    let n = covers.len();
    let has_video = video_path.is_some();
    register_track(server, id, audio_path, video_path, covers, video_offset_ms);
    let url = audio_url(server, id);
    let mut cover_urls: Vec<String> = Vec::new();
    let mut i: usize = 0;
    while i < n
        invariant
            i <= n,
            server.port_value().is_some(),
            cover_urls@.len() == i,
            forall|k: int|
                0 <= k < i ==> #[trigger] cover_urls@[k]@ == media_url(
                    server.port_value().unwrap(),
                    MediaKind::Cover(k as usize),
                    id,
                    server.cache_buster_value(),
                ),
        decreases n - i,
    {
        cover_urls.push(cover_url(server, id, i));
        i = i + 1;
    }
    let video_url = if has_video {
        Some(video_url(server, id))
    } else {
        None
    };
    TrackLinks { url, cover_urls, video_url }
}

/// Forgets the files of track `id`.
pub fn unregister_track(server: &mut AudioServer, id: usize)
    ensures
        final(server).registry_map() == old(server).registry_map().remove(id),
        final(server).port_value() == old(server).port_value(),
        final(server).cache_buster_value() == old(server).cache_buster_value(),
{
    server.registry.remove(&id);
}

/// The offset of track `id`'s video against its audio, in milliseconds: positive
/// when the video starts later.  Zero for an unknown track.
pub open spec fn offset_of(registry: Map<usize, TrackMedia>, id: usize) -> i64 {
    if registry.contains_key(id) {
        registry[id].video_offset_ms
    } else {
        0
    }
}

pub fn video_offset_ms(server: &AudioServer, id: usize) -> (r: i64)
    ensures
        r == offset_of(server.registry_map(), id),
{
    match server.registry.get(&id) {
        Some(media) => media.video_offset_ms,
        None => 0,
    }
}

/// How long the audio waits for the video to catch up.
pub fn audio_delay_ms(server: &AudioServer, id: usize) -> (r: u64)
    ensures
        r == (if offset_of(server.registry_map(), id) < 0 {
            -(offset_of(server.registry_map(), id) as int)
        } else {
            0
        }),
{
    let offset = video_offset_ms(server, id);
    if offset < 0 {
        if offset == i64::MIN {
            0x8000_0000_0000_0000u64
        } else {
            (-offset) as u64
        }
    } else {
        0
    }
}

/// How long the video waits for the audio to catch up.
pub fn video_delay_ms(server: &AudioServer, id: usize) -> (r: u64)
    ensures
        r == (if offset_of(server.registry_map(), id) > 0 {
            offset_of(server.registry_map(), id) as int
        } else {
            0
        }),
{
    let offset = video_offset_ms(server, id);
    if offset > 0 {
        offset as u64
    } else {
        0
    }
}

// ---------------------------------------------------------------------------
// Requests
// ---------------------------------------------------------------------------

fn parse_id_chars(s: &[char]) -> (r: Option<usize>)
    ensures
        r == parse_id(s@),
{
    parse_usize_chars(s)
}

/// The text of `s` before the first `c`.
fn before(s: &[char], c: char) -> (r: Vec<char>)
    ensures
        r@ == before_char(s@, c),
{
    let k = find_char_index(s, c);
    slice_chars(s, 0, k)
}

/// The text of `s` after the first `c`, when there is one.
fn after(s: &[char], c: char) -> (r: Option<Vec<char>>)
    ensures
        r.is_some() == after_char(s@, c).is_some(),
        r matches Some(v) ==> after_char(s@, c) == Some(v@),
{
    let k = find_char_index(s, c);
    if k < s.len() {
        Some(slice_chars(s, k + 1, s.len()))
    } else {
        None
    }
}

/// What a request URL asks for (see `request_kind`).
pub fn parse_request_kind(url: &str) -> (r: Option<(MediaKind, usize)>)
    ensures
        r == request_kind(url@),
{
    let chars = to_chars(url);
    let path = before(chars.as_slice(), '?');
    if starts_with_str(path.as_slice(), "/video/") {
        proof {
            reveal_strlit("/video/");
        }
        let rest = slice_chars(path.as_slice(), 7, path.len());
        return match parse_id_chars(rest.as_slice()) {
            Some(id) => Some((MediaKind::Video, id)),
            None => None,
        };
    }
    if starts_with_str(path.as_slice(), "/track/") {
        proof {
            reveal_strlit("/track/");
        }
        let rest = slice_chars(path.as_slice(), 7, path.len());
        return match parse_id_chars(rest.as_slice()) {
            Some(id) => Some((MediaKind::Audio, id)),
            None => None,
        };
    }
    if starts_with_str(path.as_slice(), "/cover/") {
        proof {
            reveal_strlit("/cover/");
        }
        let rest = slice_chars(path.as_slice(), 7, path.len());
        let first = before(rest.as_slice(), '/');
        let id = match parse_id_chars(first.as_slice()) {
            Some(id) => id,
            None => return None,
        };
        let more = match after(rest.as_slice(), '/') {
            Some(m) => m,
            None => return None,
        };
        let second = before(more.as_slice(), '/');
        return match parse_id_chars(second.as_slice()) {
            Some(idx) => Some((MediaKind::Cover(idx), id)),
            None => None,
        };
    }
    None
}

/// The file registered for what a request asks for.
pub fn media_file_for(server: &AudioServer, kind: MediaKind, id: usize) -> (r: Option<String>)
    ensures
        r.is_some() == media_file(server.registry_map(), kind, id).is_some(),
        r matches Some(p) ==> media_file(server.registry_map(), kind, id) == Some(p@),
{
    match server.registry.get(&id) {
        Some(media) => match kind {
            MediaKind::Audio => Some(media.audio.clone()),
            MediaKind::Video => match &media.video {
                Some(v) => Some(v.clone()),
                None => None,
            },
            MediaKind::Cover(idx) => {
                if idx < media.covers.len() {
                    Some(media.covers[idx].clone())
                } else {
                    None
                }
            },
        },
        None => None,
    }
}

/// Decides how to answer a request: a preflight for `OPTIONS`, otherwise the
/// file its URL names, or not found.
pub fn route_request(server: &AudioServer, is_options: bool, url: &str) -> (r: RequestRoute)
    ensures
        match r {
            RequestRoute::Preflight => route(server.registry_map(), is_options, url@) is None,
            RequestRoute::NotFound => route(server.registry_map(), is_options, url@) == Some(
                None::<Seq<char>>,
            ),
            RequestRoute::File(p) => route(server.registry_map(), is_options, url@) == Some(
                Some(p@),
            ),
        },
{
    if is_options {
        return RequestRoute::Preflight;
    }
    match parse_request_kind(url) {
        Some((kind, id)) => match media_file_for(server, kind, id) {
            Some(p) => RequestRoute::File(p),
            None => RequestRoute::NotFound,
        },
        None => RequestRoute::NotFound,
    }
}

/// The `Content-Type` for a file, chosen by its lowercased extension.
pub open spec fn mime_for_extension(e: Seq<char>) -> Seq<char> {
    if e == "mp3"@ {
        "audio/mpeg"@
    } else if e == "wav"@ {
        "audio/wav"@
    } else if e == "ogg"@ {
        "audio/ogg"@
    } else if e == "flac"@ {
        "audio/flac"@
    } else if e == "m4a"@ {
        "audio/mp4"@
    } else if e == "aac"@ {
        "audio/aac"@
    } else if e == "mp4"@ {
        "video/mp4"@
    } else if e == "webm"@ {
        "video/webm"@
    } else if e == "avi"@ {
        "video/x-msvideo"@
    } else if e == "mkv"@ {
        "video/x-matroska"@
    } else if e == "mov"@ {
        "video/quicktime"@
    } else if e == "jpg"@ || e == "jpeg"@ {
        "image/jpeg"@
    } else if e == "png"@ {
        "image/png"@
    } else if e == "webp"@ {
        "image/webp"@
    } else {
        "application/octet-stream"@
    }
}

/// The `Content-Type` for a path.
pub open spec fn mime_type(path: Seq<char>) -> Seq<char> {
    match path_extension(path) {
        Some(e) => mime_for_extension(unicode_lowercase(e)),
        None => "application/octet-stream"@,
    }
}

fn mime_for_extension_chars(e: &[char]) -> (r: &'static str)
    ensures
        r@ == mime_for_extension(e@),
{
    if chars_eq_str(e, "mp3") {
        "audio/mpeg"
    } else if chars_eq_str(e, "wav") {
        "audio/wav"
    } else if chars_eq_str(e, "ogg") {
        "audio/ogg"
    } else if chars_eq_str(e, "flac") {
        "audio/flac"
    } else if chars_eq_str(e, "m4a") {
        "audio/mp4"
    } else if chars_eq_str(e, "aac") {
        "audio/aac"
    } else if chars_eq_str(e, "mp4") {
        "video/mp4"
    } else if chars_eq_str(e, "webm") {
        "video/webm"
    } else if chars_eq_str(e, "avi") {
        "video/x-msvideo"
    } else if chars_eq_str(e, "mkv") {
        "video/x-matroska"
    } else if chars_eq_str(e, "mov") {
        "video/quicktime"
    } else if chars_eq_str(e, "jpg") || chars_eq_str(e, "jpeg") {
        "image/jpeg"
    } else if chars_eq_str(e, "png") {
        "image/png"
    } else if chars_eq_str(e, "webp") {
        "image/webp"
    } else {
        "application/octet-stream"
    }
}

/// The `Content-Type` for an extension that is already lowercased.
pub fn mime_for_lowercase_extension(e: &str) -> (r: &'static str)
    ensures
        r@ == mime_for_extension(e@),
{
    let chars = to_chars(e);
    mime_for_extension_chars(chars.as_slice())
}

/// The `Content-Type` to send with a file.
pub fn guess_mime(path: &str) -> (r: &'static str)
    ensures
        r@ == mime_type(path@),
{
    match path_extension_chars(path) {
        Some(e) => {
            let text = from_chars(e.as_slice());
            let lower = to_lowercase(text.as_str());
            mime_for_lowercase_extension(lower.as_str())
        },
        None => "application/octet-stream",
    }
}

/// The value of the first header called `Range`, in any ASCII case.
pub open spec fn range_header_in(headers: Seq<(String, String)>) -> Option<Seq<char>>
    decreases headers.len(),
{
    if headers.len() == 0 {
        None
    } else if eq_ignore_ascii_case(headers[0].0@, "Range"@) {
        Some(headers[0].1@)
    } else {
        range_header_in(headers.drop_first())
    }
}

/// The value of the request's `Range` header, if it has one.
pub fn find_range_header(headers: &Vec<(String, String)>) -> (r: Option<String>)
    ensures
        r.is_some() == range_header_in(headers@).is_some(),
        r matches Some(v) ==> range_header_in(headers@) == Some(v@),
{
    let name = to_chars("Range");
    let mut i: usize = 0;
    assert(headers@.skip(0) =~= headers@);
    while i < headers.len()
        invariant
            i <= headers.len(),
            name@ == "Range"@,
            range_header_in(headers@) == range_header_in(headers@.skip(i as int)),
        decreases headers.len() - i,
    {
        let field = to_chars(headers[i].0.as_str());
        assert(headers@.skip(i as int)[0] == headers@[i as int]);
        if eq_ignore_ascii_case_chars(field.as_slice(), name.as_slice()) {
            return Some(headers[i].1.clone());
        }
        assert(headers@.skip(i as int).drop_first() =~= headers@.skip(i + 1));
        i = i + 1;
    }
    None
}

/// `a.saturating_sub(b)`.
pub open spec fn sat_sub(a: nat, b: nat) -> nat {
    if a >= b {
        (a - b) as nat
    } else {
        0
    }
}

/// A parsed number, or `default` when the text is not one.
pub open spec fn u64_or(s: Seq<char>, default: nat) -> nat {
    match parse_unsigned(s, u64::MAX as nat) {
        Some(v) => v,
        None => default,
    }
}

/// The byte range a `Range: bytes=...` header selects from a file of
/// `file_len` bytes, before it is checked.
pub open spec fn range_bounds(spec_text: Seq<char>, file_len: nat) -> (nat, nat) {
    let start_text = before_char(spec_text, '-');
    let end_text = match after_char(spec_text, '-') {
        Some(rest) => before_char(rest, '-'),
        None => Seq::<char>::empty(),
    };
    let last = sat_sub(file_len, 1);
    if start_text.len() == 0 {
        (sat_sub(file_len, u64_or(end_text, 0)), last)
    } else {
        let start = u64_or(start_text, 0);
        let end = if end_text.len() == 0 {
            last
        } else {
            u64_or(end_text, last)
        };
        (start, end)
    }
}

/// How to answer a request with the given `Range` header for a file of
/// `file_len` bytes.
pub open spec fn range_plan(header: Option<Seq<char>>, file_len: u64) -> RangePlan {
    match header {
        None => RangePlan::Whole,
        Some(h) => if !starts_with(h, "bytes="@) {
            RangePlan::Whole
        } else {
            let bounds = range_bounds(h.skip(6), file_len as nat);
            let last = sat_sub(file_len as nat, 1);
            let start = bounds.0;
            let end = if bounds.1 <= last {
                bounds.1
            } else {
                last
            };
            if start <= end && file_len > 0 && end - start + 1 <= usize::MAX {
                RangePlan::Partial { start: start as u64, end: end as u64 }
            } else {
                RangePlan::Unsatisfiable
            }
        },
    }
}

fn u64_or_chars(s: &[char], default: u64) -> (r: u64)
    ensures
        r == u64_or(s@, default as nat),
{
    match parse_u64_chars(s) {
        Some(v) => v,
        None => default,
    }
}

/// Decides which bytes of a file of `file_len` bytes to send for a request
/// whose `Range` header is `range` (see `range_plan`).
pub fn plan_range(range: Option<&str>, file_len: u64) -> (r: RangePlan)
    ensures
        r == range_plan(
            match range {
                Some(h) => Some(h@),
                None => None,
            },
            file_len,
        ),
        r matches RangePlan::Partial { start, end } ==> start <= end < file_len,
{
    let header = match range {
        Some(h) => h,
        None => return RangePlan::Whole,
    };
    let h = to_chars(header);
    if !starts_with_str(h.as_slice(), "bytes=") {
        return RangePlan::Whole;
    }
    proof {
        reveal_strlit("bytes=");
    }
    let spec_text = slice_chars(h.as_slice(), 6, h.len());
    assert(spec_text@ =~= h@.skip(6));
    let start_text = before(spec_text.as_slice(), '-');
    let end_text = match after(spec_text.as_slice(), '-') {
        Some(rest) => before(rest.as_slice(), '-'),
        None => Vec::new(),
    };
    let last: u64 = if file_len >= 1 {
        file_len - 1
    } else {
        0
    };
    let (start, end) = if start_text.len() == 0 {
        let suffix = u64_or_chars(end_text.as_slice(), 0);
        let first: u64 = if file_len >= suffix {
            file_len - suffix
        } else {
            0
        };
        (first, last)
    } else {
        let start = u64_or_chars(start_text.as_slice(), 0);
        let end = if end_text.len() == 0 {
            last
        } else {
            u64_or_chars(end_text.as_slice(), last)
        };
        (start, end)
    };
    let end = if end <= last {
        end
    } else {
        last
    };
    if start <= end && file_len > 0 && end - start < usize::MAX as u64 {
        RangePlan::Partial { start, end }
    } else {
        RangePlan::Unsatisfiable
    }
}

/// The `Content-Range` header value for the bytes `start..=end` of a file of
/// `file_len` bytes.
pub open spec fn content_range(start: u64, end: u64, file_len: u64) -> Seq<char> {
    "bytes "@ + decimal(start as nat) + "-"@ + decimal(end as nat) + "/"@ + decimal(
        file_len as nat,
    )
}

pub fn content_range_value(start: u64, end: u64, file_len: u64) -> (r: String)
    ensures
        r@ == content_range(start, end, file_len),
{
    let mut r = String::new();
    push_str(&mut r, "bytes ");
    push_decimal(&mut r, start);
    push_str(&mut r, "-");
    push_decimal(&mut r, end);
    push_str(&mut r, "/");
    push_decimal(&mut r, file_len);
    assert(r@ =~= content_range(start, end, file_len));
    r
}

// ---------------------------------------------------------------------------
// Responses
// ---------------------------------------------------------------------------

/// Headers as name and value.
pub open spec fn header_views(v: Seq<(String, String)>) -> Seq<(Seq<char>, Seq<char>)> {
    v.map_values(|h: (String, String)| (h.0@, h.1@))
}

/// The headers that let the player's web view read media from another origin.
pub open spec fn cors_header_list() -> Seq<(Seq<char>, Seq<char>)> {
    seq![
        ("Access-Control-Allow-Origin"@, "*"@),
        ("Access-Control-Allow-Methods"@, "GET, HEAD, OPTIONS"@),
        ("Access-Control-Allow-Headers"@, "Range, Content-Type"@),
        ("Access-Control-Expose-Headers"@, "Content-Range, Accept-Ranges, Content-Length"@),
    ]
}

/// The status of the empty answer a route gets without a file being read: 204
/// to a preflight, 404 when no file is found.  A file route is answered by
/// the file (see `response_status`).
pub open spec fn route_status_of(route: RequestRoute) -> Option<u16> {
    match route {
        RequestRoute::Preflight => Some(204),
        RequestRoute::NotFound => Some(404),
        RequestRoute::File(_) => None,
    }
}

/// The status of the empty answer to a route (see `route_status_of`); such
/// an answer carries `cors_headers` alone.
pub fn route_status(route: &RequestRoute) -> (r: Option<u16>)
    ensures
        r == route_status_of(*route),
{
    match route {
        RequestRoute::Preflight => Some(204),
        RequestRoute::NotFound => Some(404),
        RequestRoute::File(_) => None,
    }
}

/// The status of the answer to a request for a file that could be read.
pub open spec fn response_status(plan: RangePlan) -> u16 {
    match plan {
        RangePlan::Whole => 200,
        RangePlan::Partial { .. } => 206,
        RangePlan::Unsatisfiable => 416,
    }
}

/// The headers of the answer to a request for a file of `file_len` bytes of
/// type `mime`.
pub open spec fn response_headers(plan: RangePlan, mime: Seq<char>, file_len: u64) -> Seq<
    (Seq<char>, Seq<char>),
> {
    match plan {
        RangePlan::Whole => seq![("Content-Type"@, mime), ("Accept-Ranges"@, "bytes"@)]
            + cors_header_list(),
        RangePlan::Partial { start, end } => seq![
            ("Content-Type"@, mime),
            ("Content-Range"@, content_range(start, end, file_len)),
            ("Accept-Ranges"@, "bytes"@),
        ] + cors_header_list(),
        RangePlan::Unsatisfiable => cors_header_list(),
    }
}

fn header(name: &str, value: &str) -> (r: (String, String))
    ensures
        r.0@ == name@,
        r.1@ == value@,
{
    (name.to_owned(), value.to_owned())
}

fn push_cors_headers(v: &mut Vec<(String, String)>)
    ensures
        header_views(final(v)@) == header_views(old(v)@) + cors_header_list(),
{
    let ghost start = v@;
    v.push(header("Access-Control-Allow-Origin", "*"));
    v.push(header("Access-Control-Allow-Methods", "GET, HEAD, OPTIONS"));
    v.push(header("Access-Control-Allow-Headers", "Range, Content-Type"));
    v.push(
        header(
            "Access-Control-Expose-Headers",
            "Content-Range, Accept-Ranges, Content-Length",
        ),
    );
    assert(header_views(v@) =~= header_views(start) + cors_header_list());
}

/// The headers that every answer carries (see `cors_header_list`).
pub fn cors_headers() -> (r: Vec<(String, String)>)
    ensures
        header_views(r@) == cors_header_list(),
{
    let mut v: Vec<(String, String)> = Vec::new();
    push_cors_headers(&mut v);
    assert(header_views(Seq::<(String, String)>::empty()) + cors_header_list() =~= cors_header_list());
    v
}

/// The status of the answer to a request for a file (see `response_status`).
pub fn response_status_for(plan: RangePlan) -> (r: u16)
    ensures
        r == response_status(plan),
{
    match plan {
        RangePlan::Whole => 200,
        RangePlan::Partial { .. } => 206,
        RangePlan::Unsatisfiable => 416,
    }
}

/// The headers of the answer to a request for a file (see
/// `response_headers`).
pub fn response_headers_for(plan: RangePlan, mime: &str, file_len: u64) -> (r: Vec<(String, String)>)
    ensures
        header_views(r@) == response_headers(plan, mime@, file_len),
{
    let mut v: Vec<(String, String)> = Vec::new();
    match plan {
        RangePlan::Whole => {
            v.push(header("Content-Type", mime));
            v.push(header("Accept-Ranges", "bytes"));
        },
        RangePlan::Partial { start, end } => {
            v.push(header("Content-Type", mime));
            v.push(("Content-Range".to_owned(), content_range_value(start, end, file_len)));
            v.push(header("Accept-Ranges", "bytes"));
        },
        RangePlan::Unsatisfiable => {},
    }
    push_cors_headers(&mut v);
    assert(header_views(v@) =~= response_headers(plan, mime@, file_len));
    v
}

// ---------------------------------------------------------------------------
// Laws
// ---------------------------------------------------------------------------

proof fn lemma_find_after_digits(prefix: Seq<char>, digits: Seq<char>, c: char, tail: Seq<char>)
    requires
        !prefix.contains(c),
        all_digits(digits),
        !('0' <= c && c <= '9'),
        tail.len() == 0 || tail[0] == c,
    ensures
        find_char(prefix + digits + tail, c) == prefix.len() + digits.len(),
{
    let s = prefix + digits + tail;
    let k: int = prefix.len() as int + digits.len() as int;
    assert forall|j: int| 0 <= j < k implies s[j] != c by {
        if j < prefix.len() {
            assert(s[j] == prefix[j]);
        } else {
            assert(s[j] == digits[j - prefix.len()]);
        }
    }
    if k < s.len() {
        assert(s[k] == tail[0]);
    }
    lemma_find_char(s, c, k);
}

proof fn lemma_audio_path(id: usize, version: u64)
    ensures
        request_kind(media_path(MediaKind::Audio, id, version)) == Some((MediaKind::Audio, id)),
{
    reveal_strlit("/track/");
    reveal_strlit("/video/");
    reveal_strlit("?v=");
    lemma_decimal_digits(id as nat);
    crate::text::lemma_parse_decimal(id as nat, usize::MAX as nat);
    let d = decimal(id as nat);
    let q = "?v="@ + decimal(version as nat);
    let pre = "/track/"@;
    let url = pre + d + q;
    assert(url =~= media_path(MediaKind::Audio, id, version));
    lemma_find_after_digits(pre, d, '?', q);
    let path = before_char(url, '?');
    assert(path =~= pre + d);
    assert(!starts_with(path, "/video/"@)) by {
        assert(path.take(7)[1] != "/video/"@[1]);
    }
    assert(path.take(7) =~= pre);
    assert(path.skip(7) =~= d);
}

proof fn lemma_video_path(id: usize, version: u64)
    ensures
        request_kind(media_path(MediaKind::Video, id, version)) == Some((MediaKind::Video, id)),
{
    reveal_strlit("/video/");
    reveal_strlit("?v=");
    lemma_decimal_digits(id as nat);
    crate::text::lemma_parse_decimal(id as nat, usize::MAX as nat);
    let d = decimal(id as nat);
    let q = "?v="@ + decimal(version as nat);
    let pre = "/video/"@;
    let url = pre + d + q;
    assert(url =~= media_path(MediaKind::Video, id, version));
    lemma_find_after_digits(pre, d, '?', q);
    let path = before_char(url, '?');
    assert(path =~= pre + d);
    assert(path.take(7) =~= pre);
    assert(path.skip(7) =~= d);
}

proof fn lemma_cover_rest(d: Seq<char>, di: Seq<char>)
    requires
        all_digits(d),
        all_digits(di),
    ensures
        before_char(d + "/"@ + di, '/') == d,
        after_char(d + "/"@ + di, '/') == Some(di),
        before_char(di, '/') == di,
{
    reveal_strlit("/");
    let body = d + "/"@ + di;
    lemma_find_after_digits(Seq::<char>::empty(), d, '/', "/"@ + di);
    assert(Seq::<char>::empty() + d + ("/"@ + di) =~= body);
    assert(body.take(d.len() as int) =~= d);
    assert(body.skip(d.len() as int + 1) =~= di);
    lemma_find_after_digits(Seq::<char>::empty(), di, '/', Seq::<char>::empty());
    assert(Seq::<char>::empty() + di + Seq::<char>::empty() =~= di);
    assert(di.take(di.len() as int) =~= di);
}

proof fn lemma_cover_path(id: usize, idx: usize, version: u64)
    ensures
        request_kind(media_path(MediaKind::Cover(idx), id, version)) == Some(
            (MediaKind::Cover(idx), id),
        ),
{
    reveal_strlit("/video/");
    reveal_strlit("/track/");
    reveal_strlit("/cover/");
    reveal_strlit("?v=");
    reveal_strlit("/");
    lemma_decimal_digits(id as nat);
    lemma_decimal_digits(idx as nat);
    crate::text::lemma_parse_decimal(id as nat, usize::MAX as nat);
    crate::text::lemma_parse_decimal(idx as nat, usize::MAX as nat);
    let d = decimal(id as nat);
    let di = decimal(idx as nat);
    let q = "?v="@ + decimal(version as nat);
    let pre = "/cover/"@;
    let body = d + "/"@ + di;
    let url = pre + body + q;
    assert(url =~= media_path(MediaKind::Cover(idx), id, version));
    let head = pre + (d + "/"@);
    assert(url =~= head + di + q);
    assert forall|j: int| 0 <= j < head.len() implies head[j] != '?' by {
        if j >= pre.len() && j < pre.len() + d.len() {
            assert(head[j] == d[j - pre.len()]);
        }
    }
    lemma_find_after_digits(head, di, '?', q);
    let path = before_char(url, '?');
    assert(path =~= pre + body);
    assert(!starts_with(path, "/video/"@)) by {
        assert(path.take(7)[1] != "/video/"@[1]);
    }
    assert(!starts_with(path, "/track/"@)) by {
        assert(path.take(7)[1] != "/track/"@[1]);
    }
    assert(path.take(7) =~= pre);
    assert(path.skip(7) =~= body);
    lemma_cover_rest(d, di);
}

/// The URL path that the library hands out for a track's file is read back,
/// by the server, as a request for that same file of that same track.
pub proof fn lemma_media_path_routes_back(kind: MediaKind, id: usize, version: u64)
    ensures
        request_kind(media_path(kind, id, version)) == Some((kind, id)),
{
    match kind {
        MediaKind::Audio => lemma_audio_path(id, version),
        MediaKind::Video => lemma_video_path(id, version),
        MediaKind::Cover(idx) => lemma_cover_path(id, idx, version),
    }
}

/// A request for the URL handed out for a track's file is answered with the
/// file registered for it: the audio, the video if there is one, the cover of
/// that index if there is one.
pub proof fn lemma_registered_media_is_served(
    registry: Map<usize, TrackMedia>,
    id: usize,
    media: TrackMedia,
    kind: MediaKind,
    version: u64,
)
    ensures
        route(registry.insert(id, media), false, media_path(kind, id, version)) == Some(
            match kind {
                MediaKind::Audio => Some(media.audio@),
                MediaKind::Video => match media.video {
                    Some(v) => Some(v@),
                    None => None,
                },
                MediaKind::Cover(idx) => if idx < media.covers@.len() {
                    Some(media.covers@[idx as int]@)
                } else {
                    None
                },
            },
        ),
{
    lemma_media_path_routes_back(kind, id, version);
}

/// Once a track is unregistered, no request finds any of its files.
pub proof fn lemma_unregistered_media_is_not_served(
    registry: Map<usize, TrackMedia>,
    id: usize,
    kind: MediaKind,
    version: u64,
)
    ensures
        route(registry.remove(id), false, media_path(kind, id, version)) == Some(
            None::<Seq<char>>,
        ),
{
    lemma_media_path_routes_back(kind, id, version);
}

/// A video offset delays exactly one of the two streams, by its size.
pub proof fn lemma_delays_split_offset(offset: i64)
    ensures
        ({
            let audio = if offset < 0 {
                -(offset as int)
            } else {
                0
            };
            let video = if offset > 0 {
                offset as int
            } else {
                0
            };
            &&& video - audio == offset
            &&& audio == 0 || video == 0
        }),
{
}

/// Every media URL starts with the origin of the port it was built for and a
/// `/`; since a recorded port is never replaced (`claim_audio_server_port`),
/// all URLs a server hands out share that origin.
pub proof fn lemma_media_url_origin(port: u16, kind: MediaKind, id: usize, version: u64)
    ensures
        starts_with(media_url(port, kind, id, version), server_origin(port) + "/"@),
{
    reveal_strlit("/");
    reveal_strlit("/track/");
    reveal_strlit("/video/");
    reveal_strlit("/cover/");
    let o = server_origin(port);
    let u = media_url(port, kind, id, version);
    let p = media_path(kind, id, version);
    assert(p[0] == '/');
    assert(u.take(o.len() as int + 1) =~= o + "/"@) by {
        assert forall|i: int| 0 <= i < o.len() + 1 implies u.take(o.len() as int + 1)[i] == (o
            + "/"@)[i] by {
            if i < o.len() {
                assert(u[i] == o[i]);
            } else {
                assert(u[i] == p[0]);
            }
        }
    }
}

/// The text of a `Range` header after `bytes=`, split at its first `-`.
proof fn lemma_range_texts(a: Seq<char>, b: Seq<char>)
    requires
        all_digits(a),
        all_digits(b),
    ensures
        before_char(a + "-"@ + b, '-') == a,
        after_char(a + "-"@ + b, '-') == Some(b),
        before_char(b, '-') == b,
{
    reveal_strlit("-");
    let t = a + "-"@ + b;
    lemma_find_after_digits(Seq::<char>::empty(), a, '-', "-"@ + b);
    assert(Seq::<char>::empty() + a + ("-"@ + b) =~= t);
    assert(t.take(a.len() as int) =~= a);
    assert(t.skip(a.len() as int + 1) =~= b);
    lemma_find_after_digits(Seq::<char>::empty(), b, '-', Seq::<char>::empty());
    assert(Seq::<char>::empty() + b + Seq::<char>::empty() =~= b);
    assert(b.take(b.len() as int) =~= b);
}

proof fn lemma_bytes_prefix(spec_text: Seq<char>)
    ensures
        starts_with("bytes="@ + spec_text, "bytes="@),
        ("bytes="@ + spec_text).skip(6) == spec_text,
{
    reveal_strlit("bytes=");
    assert(("bytes="@ + spec_text).take(6) =~= "bytes="@);
    assert(("bytes="@ + spec_text).skip(6) =~= spec_text);
}

/// A range `bytes=s-e` that lies within the file is served as asked: bytes
/// `s` to `e`.
pub proof fn lemma_explicit_range_served(start: u64, end: u64, file_len: u64)
    requires
        start <= end < file_len,
        end - start + 1 <= usize::MAX,
    ensures
        range_plan(
            Some("bytes="@ + decimal(start as nat) + "-"@ + decimal(end as nat)),
            file_len,
        ) == (RangePlan::Partial { start, end }),
{
    let ds = decimal(start as nat);
    let de = decimal(end as nat);
    lemma_decimal_digits(start as nat);
    lemma_decimal_digits(end as nat);
    crate::text::lemma_parse_decimal(start as nat, u64::MAX as nat);
    crate::text::lemma_parse_decimal(end as nat, u64::MAX as nat);
    let spec_text = ds + "-"@ + de;
    let h = "bytes="@ + ds + "-"@ + de;
    lemma_range_texts(ds, de);
    lemma_bytes_prefix(spec_text);
    assert(h =~= "bytes="@ + spec_text);
    assert(u64_or(ds, 0) == start);
    assert(u64_or(de, sat_sub(file_len as nat, 1)) == end);
    assert(range_bounds(spec_text, file_len as nat) == (start as nat, end as nat));
}

/// A range `bytes=s-` that starts within the file is served from `s` to the
/// last byte.
pub proof fn lemma_open_range_served(start: u64, file_len: u64)
    requires
        start < file_len,
        file_len - start <= usize::MAX,
    ensures
        range_plan(Some("bytes="@ + decimal(start as nat) + "-"@), file_len) == (RangePlan::Partial {
            start,
            end: (file_len - 1) as u64,
        }),
{
    let ds = decimal(start as nat);
    lemma_decimal_digits(start as nat);
    crate::text::lemma_parse_decimal(start as nat, u64::MAX as nat);
    lemma_range_texts(ds, Seq::<char>::empty());
    assert(ds + "-"@ + Seq::<char>::empty() =~= ds + "-"@);
    lemma_bytes_prefix(ds + "-"@);
    assert("bytes="@ + ds + "-"@ =~= "bytes="@ + (ds + "-"@));
}

/// A range `bytes=-n` asks for the last `n` bytes: it is served from there
/// (from the start when the file is shorter) to the last byte.
pub proof fn lemma_suffix_range_served(n: u64, file_len: u64)
    requires
        0 < n,
        0 < file_len,
        (if n < file_len { n } else { file_len }) <= usize::MAX,
    ensures
        range_plan(Some("bytes="@ + "-"@ + decimal(n as nat)), file_len) == (RangePlan::Partial {
            start: (if n < file_len { file_len - n } else { 0 }) as u64,
            end: (file_len - 1) as u64,
        }),
{
    let dn = decimal(n as nat);
    lemma_decimal_digits(n as nat);
    crate::text::lemma_parse_decimal(n as nat, u64::MAX as nat);
    let spec_text = "-"@ + dn;
    lemma_range_texts(Seq::<char>::empty(), dn);
    assert(Seq::<char>::empty() + "-"@ + dn =~= spec_text);
    lemma_bytes_prefix(spec_text);
    assert("bytes="@ + "-"@ + dn =~= "bytes="@ + spec_text);
    assert(before_char(spec_text, '-').len() == 0);
    assert(u64_or(dn, 0) == n);
    assert(range_bounds(spec_text, file_len as nat) == (
        sat_sub(file_len as nat, n as nat),
        (file_len - 1) as nat,
    ));
}

} // verus!
