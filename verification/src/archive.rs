//! ZIP archives of named files.

use vstd::prelude::*;

use zip::write::SimpleFileOptions;
use zip::{CompressionMethod, ZipWriter};

use crate::text::owned;

verus! {

// -- The ZIP writer ---------------------------------------------------------

/// A ZIP archive under construction in memory, written by `zip::ZipWriter`.
#[verifier::external_body]
pub struct Archive {
    writer: ZipWriter<std::io::Cursor<Vec<u8>>>,
}

/// What an archive under construction holds: each file's name, its bytes,
/// and whether it is compressed, in the order they were started.
pub uninterp spec fn archive_entries(archive: Archive) -> Seq<(Seq<char>, Seq<u8>, bool)>;

/// What a reader finds in the bytes of a ZIP archive: each file's name, its
/// bytes, and whether it is compressed, in order.
pub uninterp spec fn unpacked(bytes: Seq<u8>) -> Seq<(Seq<char>, Seq<u8>, bool)>;

/// The longest file name, in bytes, that a ZIP archive can hold.
pub const LONGEST_NAME: usize = 65535;

/// What the headers of one file take at most, in bytes, besides its name.
pub const HEADER_SIZE: usize = 128;

/// The size up to which nothing but a name that occurs twice keeps files out
/// of an archive: 1 GiB, well below the 4 GiB that a plain ZIP archive holds.
pub const SMALL_SIZE: usize = 0x4000_0000;

/// The size of the files: their names, their bytes, and their headers.
pub open spec fn total_size(entries: Seq<(Seq<char>, Seq<u8>, bool)>) -> nat
    decreases entries.len(),
{
    if entries.len() == 0 {
        0
    } else {
        total_size(entries.drop_last()) + vstd::utf8::encode_utf8(entries.last().0).len()
            + entries.last().1.len() + HEADER_SIZE as nat
    }
}

/// True when the size of the files decides nothing.
pub open spec fn is_small(entries: Seq<(Seq<char>, Seq<u8>, bool)>) -> bool {
    total_size(entries) <= SMALL_SIZE
}

/// True when one of the files has this name.
pub open spec fn holds_name(entries: Seq<(Seq<char>, Seq<u8>, bool)>, name: Seq<char>) -> bool {
    exists|k: int| 0 <= k < entries.len() && (#[trigger] entries[k]).0 == name
}

/// `zip::ZipWriter::new`: an archive starts without files.
#[verifier::external_body]
fn new_archive() -> (archive: Archive)
    ensures
        archive_entries(archive) == Seq::<(Seq<char>, Seq<u8>, bool)>::empty(),
{
    Archive { writer: ZipWriter::new(std::io::Cursor::new(Vec::new())) }
}

/// `zip::ZipWriter::start_file`: where it succeeds, no file had this name
/// before, and an empty file of this name is the last of the archive. It
/// succeeds on a small archive that has no file of this name: the other
/// errors come from the writer below, a `Vec` in memory that grows as needed,
/// and from sizes of 4 GiB. It panics on a name of more than 65535 bytes.
/// When it fails on a larger archive is not stated.
#[verifier::external_body]
fn start_file(archive: Archive, name: &str, is_deflated: bool) -> (r: Result<Archive, String>)
    requires
        vstd::utf8::encode_utf8(name@).len() <= LONGEST_NAME,
    ensures
        r matches Ok(next) ==> archive_entries(next) == archive_entries(archive).push(
            (name@, Seq::<u8>::empty(), is_deflated),
        ),
        r is Ok ==> !holds_name(archive_entries(archive), name@),
        !holds_name(archive_entries(archive), name@) && is_small(
            archive_entries(archive).push((name@, Seq::<u8>::empty(), is_deflated)),
        ) ==> r is Ok,
{
    let method = if is_deflated { CompressionMethod::Deflated } else { CompressionMethod::Stored };
    let options = SimpleFileOptions::default().compression_method(method);
    let mut writer = archive.writer;
    writer.start_file(name, options).map_err(|error| error.to_string())?;
    Ok(Archive { writer })
}

/// The files with `bytes` appended to the last one.
pub open spec fn appended(entries: Seq<(Seq<char>, Seq<u8>, bool)>, bytes: Seq<u8>) -> Seq<
    (Seq<char>, Seq<u8>, bool),
> {
    let last = entries.last();
    entries.update(entries.len() - 1, (last.0, last.1 + bytes, last.2))
}

/// `std::io::Write::write_all` on a `zip::ZipWriter`: where it succeeds, the
/// bytes are appended to the last file of the archive. It succeeds where the
/// archive stays small: a file is open, the writer below is a `Vec` in memory
/// that grows as needed, and only a file of 4 GiB is refused. When it fails
/// on a larger archive is not stated.
#[verifier::external_body]
fn write_file(archive: Archive, bytes: &[u8]) -> (r: Result<Archive, String>)
    requires
        archive_entries(archive).len() > 0,
    ensures
        r matches Ok(next) ==> archive_entries(next) == appended(archive_entries(archive), bytes@),
        is_small(appended(archive_entries(archive), bytes@)) ==> r is Ok,
{
    let mut writer = archive.writer;
    std::io::Write::write_all(&mut writer, bytes).map_err(|error| error.to_string())?;
    Ok(Archive { writer })
}

/// `zip::ZipWriter::finish`: where it succeeds, a reader of the bytes finds
/// the files that were written. It succeeds on a small archive: the writer
/// below is a `Vec` in memory that grows as needed, and only a file of 4 GiB
/// is refused. When it fails on a larger archive is not stated.
#[verifier::external_body]
fn finish_archive(archive: Archive) -> (r: Result<Vec<u8>, String>)
    ensures
        r matches Ok(bytes) ==> unpacked(bytes@) == archive_entries(archive),
        is_small(archive_entries(archive)) ==> r is Ok,
{
    archive.writer.finish().map(|cursor| cursor.into_inner()).map_err(|error| error.to_string())
}

// -- Packing ----------------------------------------------------------------

/// One file that goes into an archive.
#[derive(Debug)]
pub struct NamedFile {
    pub name: String,
    pub bytes: Vec<u8>,
}

/// The files as an archive holds them.
pub open spec fn files_of(files: Seq<NamedFile>, is_deflated: bool) -> Seq<
    (Seq<char>, Seq<u8>, bool),
> {
    files.map_values(|file: NamedFile| (file.name@, file.bytes@, is_deflated))
}

/// True when no name is longer than an archive can hold.
pub open spec fn names_fit(entries: Seq<(Seq<char>, Seq<u8>, bool)>) -> bool {
    forall|k: int|
        0 <= k < entries.len() ==> vstd::utf8::encode_utf8((#[trigger] entries[k]).0).len()
            <= LONGEST_NAME
}

/// True when no two files have the same name.
pub open spec fn names_differ(entries: Seq<(Seq<char>, Seq<u8>, bool)>) -> bool {
    forall|j: int, k: int|
        0 <= j < k < entries.len() ==> (#[trigger] entries[j]).0 != (#[trigger] entries[k]).0
}

/// What is said of a file name that no archive can hold.
pub const LONG_NAME: &'static str = "a file name is too long";

/// True when `r` is the answer to packing files whose names differ: the
/// archive of the files, or, where a name is too long, an error that says so.
/// A large archive may fail for another reason.
pub open spec fn is_archive_of(
    r: Result<Vec<u8>, String>,
    entries: Seq<(Seq<char>, Seq<u8>, bool)>,
) -> bool {
    match r {
        Ok(bytes) => unpacked(bytes@) == entries && names_fit(entries),
        Err(message) => is_small(entries) ==> !names_fit(entries) && message@ == LONG_NAME@,
    }
}

/// The first files are no larger than all of them.
proof fn lemma_size_of_prefix(entries: Seq<(Seq<char>, Seq<u8>, bool)>, k: int)
    requires
        0 <= k <= entries.len(),
    ensures
        total_size(entries.take(k)) <= total_size(entries),
    decreases entries.len(),
{
    if k == entries.len() {
        assert(entries.take(k) =~= entries);
    } else {
        lemma_size_of_prefix(entries.drop_last(), k);
        assert(entries.drop_last().take(k) =~= entries.take(k));
    }
}

/// While the next file is started and written, the archive is no larger than
/// all files.
proof fn lemma_size_of_next(entries: Seq<(Seq<char>, Seq<u8>, bool)>, k: int)
    requires
        0 <= k < entries.len(),
    ensures
        total_size(
            entries.take(k).push((entries[k].0, Seq::<u8>::empty(), entries[k].2)),
        ) <= total_size(entries),
        total_size(entries.take(k + 1)) <= total_size(entries),
{
    let started = entries.take(k).push((entries[k].0, Seq::<u8>::empty(), entries[k].2));
    lemma_size_of_prefix(entries, k + 1);
    assert(started.drop_last() =~= entries.take(k));
    assert(entries.take(k + 1).drop_last() =~= entries.take(k));
}

/// Packs the files as a ZIP archive, in order. A name that is too long, or
/// that occurs twice, is an error.
pub fn pack(files: &Vec<NamedFile>, is_deflated: bool) -> (r: Result<Vec<u8>, String>)
    ensures
        r is Ok ==> names_differ(files_of(files@, is_deflated)),
        names_differ(files_of(files@, is_deflated)) ==> is_archive_of(
            r,
            files_of(files@, is_deflated),
        ),
{
    let mut archive = new_archive();
    let ghost all = files_of(files@, is_deflated);
    let mut i: usize = 0;
    assert(all.take(0) =~= Seq::<(Seq<char>, Seq<u8>, bool)>::empty());
    while i < files.len()
        invariant
            i <= files@.len(),
            all == files_of(files@, is_deflated),
            archive_entries(archive) == all.take(i as int),
            names_fit(all.take(i as int)),
            names_differ(all.take(i as int)),
        decreases files@.len() - i,
    {
        let name = files[i].name.as_str();
        let ghost before = all.take(i as int);
        assert(all[i as int] == (name@, files@[i as int].bytes@, is_deflated));
        if name.as_bytes().len() > LONGEST_NAME {
            assert(vstd::utf8::encode_utf8(all[i as int].0).len() > LONGEST_NAME);
            return Err(owned(LONG_NAME));
        }
        proof {
            lemma_size_of_next(all, i as int);
        }
        archive =
        match start_file(archive, name, is_deflated) {
            Ok(next) => next,
            Err(error) => {
                proof {
                    if is_small(all) {
                        let k = choose|k: int|
                            0 <= k < before.len() && (#[trigger] before[k]).0 == name@;
                        assert(all[k].0 == all[i as int].0);
                    }
                }
                return Err(error);
            },
        };
        let ghost started = archive_entries(archive);
        proof {
            let bytes = files@[i as int].bytes@;
            assert(Seq::<u8>::empty() + bytes =~= bytes);
            assert(appended(started, bytes) =~= all.take(i + 1));
            assert forall|j: int, k: int| 0 <= j < k < i + 1 implies (#[trigger] all.take(
                i + 1,
            )[j]).0 != (#[trigger] all.take(i + 1)[k]).0 by {
                assert(before[j] == all[j]);
                if k < i {
                    assert(before[k] == all[k]);
                }
            }
            assert forall|k: int| 0 <= k < i + 1 implies vstd::utf8::encode_utf8(
                (#[trigger] all.take(i + 1)[k]).0,
            ).len() <= LONGEST_NAME by {
                if k < i {
                    assert(before[k] == all[k]);
                }
            }
        }
        archive =
        match write_file(archive, files[i].bytes.as_slice()) {
            Ok(next) => next,
            Err(error) => {
                return Err(error);
            },
        };
        i += 1;
    }
    assert(all.take(i as int) =~= all);
    finish_archive(archive)
}

} // verus!
