//! Beatmap archives (`.osz` files, which are ZIP archives): which files an
//! archive unpacks to, and under which relative paths.
use vstd::prelude::*;
use crate::library::{archive_entry_path, strip_leading_dot_slashes, strip_leading_slashes};

verus! {

/// One entry of a ZIP archive, as the `zip` crate reads it: its name (when
/// the name decodes), whether it is a directory, its name as a path that
/// stays inside the folder it is unpacked into (when there is one), and the
/// bytes it unpacks to (as far as they could be read).
pub struct ZipEntry {
    pub name: Option<String>,
    pub is_dir: bool,
    pub enclosed: Option<String>,
    pub data: Vec<u8>,
}

/// An entry as plain values: name, is-directory, enclosed name, data.
pub type EntryView = (Option<Seq<char>>, bool, Option<Seq<char>>, Seq<u8>);

pub open spec fn opt_view(s: Option<String>) -> Option<Seq<char>> {
    match s {
        Some(t) => Some(t@),
        None => None,
    }
}

pub open spec fn entry_view(e: Option<ZipEntry>) -> Option<EntryView> {
    match e {
        Some(z) => Some((opt_view(z.name), z.is_dir, opt_view(z.enclosed), z.data@)),
        None => None,
    }
}

pub open spec fn entry_views(v: Seq<Option<ZipEntry>>) -> Seq<Option<EntryView>> {
    v.map_values(|e: Option<ZipEntry>| entry_view(e))
}

pub open spec fn zip_entry_views(r: Option<Vec<Option<ZipEntry>>>) -> Option<Seq<Option<EntryView>>> {
    match r {
        Some(v) => Some(entry_views(v@)),
        None => None,
    }
}

/// What the `zip` crate reads from the bytes of an archive: nothing when they
/// are not a ZIP archive, else its entries in order, each nothing when it
/// cannot be opened.
pub uninterp spec fn zip_entries_of(bytes: Seq<u8>) -> Option<Seq<Option<EntryView>>>;

/// `zip::ZipArchive::new` on the bytes, then `by_index` for each entry, with
/// its `name`, `is_dir`, `enclosed_name` and the bytes `read_to_end` gives.
/// The contract claims only that the result is the value `zip_entries_of`
/// names: the ZIP format is not restated.
#[verifier::external_body]
fn read_zip_entries(bytes: &[u8]) -> (r: Option<Vec<Option<ZipEntry>>>)
    ensures
        zip_entry_views(r) == zip_entries_of(bytes@),
{
    let mut archive = zip::ZipArchive::new(std::io::Cursor::new(bytes)).ok()?;
    let mut entries = Vec::new();
    for i in 0..archive.len() {
        entries.push(archive.by_index(i).ok().map(|mut file| {
            let mut data = Vec::new();
            let _ = std::io::Read::read_to_end(&mut file, &mut data);
            let name = file.name().ok().map(|n| n.into_owned());
            let enclosed = file.enclosed_name().map(|p| p.to_string_lossy().into_owned());
            ZipEntry { name, is_dir: file.is_dir(), enclosed, data }
        }));
    }
    Some(entries)
}

/// The relative path an entry called `name` is unpacked to: its enclosed
/// name, else its name without leading `/` and `./`.
pub open spec fn entry_path(name: Seq<char>, enclosed: Option<Seq<char>>) -> Seq<char> {
    match enclosed {
        Some(p) => p,
        None => strip_leading_dot_slashes(strip_leading_slashes(name)),
    }
}

/// The files an archive with the entries `entries` unpacks to, in order, as
/// relative path and contents: entries that cannot be opened, whose name does
/// not decode, or that are directories are left out.
pub open spec fn unpacked_files(entries: Seq<Option<EntryView>>) -> Seq<(Seq<char>, Seq<u8>)>
    decreases entries.len(),
{
    if entries.len() == 0 {
        Seq::<(Seq<char>, Seq<u8>)>::empty()
    } else {
        let prev = unpacked_files(entries.drop_last());
        match entries.last() {
            Some((Some(name), false, enclosed, data)) => prev.push(
                (entry_path(name, enclosed), data),
            ),
            _ => prev,
        }
    }
}

pub open spec fn file_views(v: Seq<(String, Vec<u8>)>) -> Seq<(Seq<char>, Seq<u8>)> {
    v.map_values(|f: (String, Vec<u8>)| (f.0@, f.1@))
}

fn copy_bytes(b: &Vec<u8>) -> (r: Vec<u8>)
    ensures
        r@ == b@,
{
    let mut r: Vec<u8> = Vec::new();
    let mut i: usize = 0;
    while i < b.len()
        invariant
            i <= b.len(),
            r@ == b@.take(i as int),
        decreases b.len() - i,
    {
        r.push(b[i]);
        i = i + 1;
        assert(r@ =~= b@.take(i as int));
    }
    assert(b@.take(b.len() as int) =~= b@);
    r
}

/// The files to write for the entries of an archive (see `unpacked_files`).
pub fn osz_files(entries: &Vec<Option<ZipEntry>>) -> (r: Vec<(String, Vec<u8>)>)
    ensures
        file_views(r@) == unpacked_files(entry_views(entries@)),
{
    let ghost all = entry_views(entries@);
    let mut out: Vec<(String, Vec<u8>)> = Vec::new();
    let mut i: usize = 0;
    while i < entries.len()
        invariant
            i <= entries.len(),
            all == entry_views(entries@),
            file_views(out@) == unpacked_files(all.take(i as int)),
        decreases entries.len() - i,
    {
        assert(all.take(i + 1).drop_last() =~= all.take(i as int));
        assert(all.take(i + 1).last() == entry_view(entries@[i as int]));
        match &entries[i] {
            Some(e) => {
                match &e.name {
                    Some(name) => {
                        if !e.is_dir {
                            let path = match &e.enclosed {
                                Some(p) => p.clone(),
                                None => archive_entry_path(name.as_str()),
                            };
                            let ghost before = out@;
                            out.push((path, copy_bytes(&e.data)));
                            assert(file_views(out@) =~= file_views(before).push(
                                (path@, e.data@),
                            ));
                        }
                    },
                    None => {},
                }
            },
            None => {},
        }
        i = i + 1;
    }
    assert(all.take(entries.len() as int) =~= all);
    out
}

/// The files a beatmap archive holds, as relative path and contents, or
/// nothing when its bytes are not a ZIP archive.
pub fn osz_archive_files(bytes: &[u8]) -> (r: Option<Vec<(String, Vec<u8>)>>)
    ensures
        r is Some == zip_entries_of(bytes@) is Some,
        r matches Some(files) ==> file_views(files@) == unpacked_files(
            zip_entries_of(bytes@).unwrap(),
        ),
{
    match read_zip_entries(bytes) {
        Some(entries) => Some(osz_files(&entries)),
        None => None,
    }
}

} // verus!
