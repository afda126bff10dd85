//! The repackaging pipeline over archive bytes: unpack the source archive,
//! find the bundle, assemble the payload, write the output archive with its
//! per-entry policy, and check the result before handing it out.

use std::io::{Cursor, Read, Write};
use vstd::prelude::*;
use zip::result::ZipError;
use zip::write::FileOptions;
use zip::{CompressionMethod, ZipArchive, ZipWriter};
use crate::bundle::{
    app_ext, is_bundle_at, is_marker_path, marker, is_selected_bundle, lemma_selected_bundle_unique, locate_bundle, node_path,
    TreeEntry,
};
use crate::layout::{
    assemble_payload, dir_from, payload_dir, entry_path, file_from, has_dir_entry, has_file_entry, is_payload_of, rest_of,
    PayloadEntry,
};
use crate::payload::{
    ends_with_str, has_extension, join_slash, spec_entry_name, spec_file_mode, unix_permissions_for_payload_file, views,
    zip_name_from_relative_path, MODE_EXECUTABLE,
};
use crate::naming::{is_valid_ipa_name, is_valid_output_name, starts_with_str, trim_text, trimmed};
use crate::tree::{
    entry_name_is_enclosed, is_enclosed_name, lemma_components_well_formed, path_components, spec_components,
    spec_names_dir, well_formed_path,
};

verus! {

#[verifier::external_type_specification]
#[verifier::external_body]
pub struct ExZipError(ZipError);

#[verifier::external_type_specification]
#[verifier::external_body]
pub struct ExIoError(std::io::Error);

#[verifier::external_type_specification]
#[verifier::external_body]
#[verifier::reject_recursive_types(T)]
pub struct ExCursor<T>(Cursor<T>);

#[verifier::external_type_specification]
#[verifier::external_body]
#[verifier::reject_recursive_types(R)]
pub struct ExZipArchive<R>(ZipArchive<R>);

/// An archive opened for reading from bytes in memory.
pub type ArchiveReader = ZipArchive<Cursor<Vec<u8>>>;

/// An archive being written into bytes in memory. The writer's type cannot be
/// declared to the verifier (its bound names `std::io` traits), so it is held
/// here and reached through the wrappers below.
#[verifier::external_body]
pub struct ArchiveWriter {
    inner: ZipWriter<Cursor<Vec<u8>>>,
}

/// The bytes that an archive opened for reading was opened from.
pub uninterp spec fn archive_source(a: ArchiveReader) -> Seq<u8>;

/// The entries of the archive held in `bytes`, in their stored order: each
/// entry's name and its (uncompressed) contents, as reading it with an empty
/// password (which an unencrypted entry ignores) gives them.
pub uninterp spec fn decoded_listing(bytes: Seq<u8>) -> Seq<(Seq<char>, Seq<u8>)>;

/// Whether the archive held in `bytes` opens, and every entry of it reads
/// with an empty password (which an unencrypted entry ignores).
pub uninterp spec fn archive_decodes(bytes: Seq<u8>) -> bool;

/// Relies on `ZipArchive::new`: reads the central directory of the archive
/// held in `bytes`; it succeeds on an archive that decodes.
#[verifier::external_body]
fn open_archive(bytes: Vec<u8>) -> (r: Result<ArchiveReader, ZipError>)
    ensures
        r matches Ok(a) ==> archive_source(a) == bytes@,
        archive_decodes(bytes@) ==> r is Ok,
{
    ZipArchive::new(Cursor::new(bytes))
}

/// Relies on `ZipArchive::len`: the number of entries in the archive.
#[verifier::external_body]
fn archive_len(a: &ArchiveReader) -> (r: usize)
    ensures
        r == decoded_listing(archive_source(*a)).len(),
{
    a.len()
}

/// Relies on `ZipArchive::by_index_decrypt` with an empty password,
/// `ZipFile::name` and `Read::read_to_end` on the entry: the name of entry `i`
/// and its contents. An entry that would need a password is an error. Reading
/// moves the archive's reader only.
#[verifier::external_body]
fn read_entry(a: &mut ArchiveReader, i: usize) -> (r: Result<(String, Vec<u8>), ZipError>)
    requires
        i < decoded_listing(archive_source(*old(a))).len(),
    ensures
        archive_source(*final(a)) == archive_source(*old(a)),
        r matches Ok(t) ==> t.0@ == decoded_listing(archive_source(*old(a)))[i as int].0
            && t.1@ == decoded_listing(archive_source(*old(a)))[i as int].1,
        archive_decodes(archive_source(*old(a))) ==> r is Ok,
{
    let mut file = match a.by_index_decrypt(i, b"")? {
        Ok(file) => file,
        Err(_) => return Err(ZipError::UnsupportedArchive(ZipError::PASSWORD_REQUIRED)),
    };
    let name = file.name().to_string();
    let mut data = Vec::new();
    file.read_to_end(&mut data)?;
    Ok((name, data))
}

/// How an entry's contents are stored in an archive.
#[derive(Debug, Clone, Copy, PartialEq, Eq, Structural)]
pub enum EntryMethod {
    Stored,
    Deflated,
}

/// One entry as written: name, whether it is a directory, permission bits,
/// storage method, and contents.
pub type EntryRecord = (Seq<char>, bool, u32, EntryMethod, Seq<u8>);

/// The entries written so far into an archive writer, in order.
pub uninterp spec fn written_records(w: ArchiveWriter) -> Seq<EntryRecord>;

/// The bytes of a finished archive holding `records`, all with the fixed
/// default timestamp.
pub uninterp spec fn encoded_archive(records: Seq<EntryRecord>) -> Seq<u8>;

/// Whether a record stays within what an archive without 64-bit extensions
/// holds: a name of under 16384 characters (so under 65536 bytes) and
/// contents of under 2 GiB.
pub open spec fn record_fits(r: EntryRecord) -> bool {
    r.0.len() < 16384 && r.4.len() < 0x8000_0000
}

/// Whether the last record written (if any) fits.
pub open spec fn last_fits(records: Seq<EntryRecord>) -> bool {
    records.len() == 0 || record_fits(records.last())
}

/// Whether the listing read back holds exactly the names and contents of
/// the records written, in order.
pub open spec fn lists_records(listing: Seq<(Seq<char>, Seq<u8>)>, records: Seq<EntryRecord>) -> bool {
    &&& listing.len() == records.len()
    &&& forall|j: int| 0 <= j < listing.len() ==> (#[trigger] listing[j]).0 == records[j].0 && listing[j].1 == records[j].4
}

/// Whether every record fits.
pub open spec fn records_fit(records: Seq<EntryRecord>) -> bool {
    forall|j: int| 0 <= j < records.len() ==> record_fits(#[trigger] records[j])
}

/// Whether the archive held in `b` decodes and lists exactly `records`'
/// names and contents, in order.
pub open spec fn reads_back(b: Seq<u8>, records: Seq<EntryRecord>) -> bool {
    archive_decodes(b) && lists_records(decoded_listing(b), records)
}

/// Relies on `ZipWriter::new` over an empty in-memory buffer: nothing is
/// written yet.
#[verifier::external_body]
fn new_writer() -> (w: ArchiveWriter)
    ensures
        written_records(w) == Seq::<EntryRecord>::empty(),
{
    ArchiveWriter { inner: ZipWriter::new(Cursor::new(Vec::new())) }
}

/// Relies on `ZipWriter::add_directory`: appends a directory entry named
/// `name` (which already ends with `/`) with permission bits `mode`; the crate
/// always stores directories. Writing into memory fails only when the entry
/// before it grew past what the archive holds.
#[verifier::external_body]
fn add_dir(w: &mut ArchiveWriter, name: &str, mode: u32) -> (r: Result<(), ZipError>)
    requires
        name@.len() > 0,
        name@.last() == '/',
        mode <= 0o777,
    ensures
        r is Ok ==> written_records(*final(w)) == written_records(*old(w)).push(
            (name@, true, mode, EntryMethod::Stored, Seq::empty()),
        ),
        last_fits(written_records(*old(w))) ==> r is Ok,
{
    w.inner.add_directory(name, FileOptions::default().unix_permissions(mode))
}

/// Relies on `ZipWriter::start_file`: appends an empty file entry named `name`
/// with permission bits `mode`, stored by `method`, open for its contents.
#[verifier::external_body]
fn start_file(w: &mut ArchiveWriter, name: &str, mode: u32, method: EntryMethod) -> (r: Result<(), ZipError>)
    requires
        mode <= 0o777,
    ensures
        r is Ok ==> written_records(*final(w)) == written_records(*old(w)).push(
            (name@, false, mode, method, Seq::empty()),
        ),
        last_fits(written_records(*old(w))) ==> r is Ok,
{
    let method = match method {
        EntryMethod::Stored => CompressionMethod::Stored,
        EntryMethod::Deflated => CompressionMethod::Deflated,
    };
    w.inner.start_file(name, FileOptions::default().compression_method(method).unix_permissions(mode))
}

/// Relies on `Write::write_all` of `ZipWriter`: appends `data` to the contents
/// of the file entry last started; it fails only past 4 GiB of contents.
#[verifier::external_body]
fn write_data(w: &mut ArchiveWriter, data: &[u8]) -> (r: Result<(), std::io::Error>)
    requires
        written_records(*old(w)).len() > 0,
        !written_records(*old(w)).last().1,
    ensures
        r is Ok ==> written_records(*final(w)) == written_records(*old(w)).update(
            written_records(*old(w)).len() - 1,
            (
                written_records(*old(w)).last().0,
                false,
                written_records(*old(w)).last().2,
                written_records(*old(w)).last().3,
                written_records(*old(w)).last().4 + data@,
            ),
        ),
        written_records(*old(w)).last().4.len() + data@.len() < 0x8000_0000 ==> r is Ok,
{
    w.inner.write_all(data)
}

/// Relies on `ZipWriter::finish` and `Cursor::into_inner`: the bytes of the
/// finished archive. When every record fits, finishing succeeds and reading
/// the bytes back gives each record's name and contents, in order.
#[verifier::external_body]
fn finish_archive(w: ArchiveWriter) -> (r: Result<Vec<u8>, ZipError>)
    ensures
        r matches Ok(b) ==> b@ == encoded_archive(written_records(w)),
        records_fit(written_records(w)) ==> r is Ok,
        r matches Ok(b) ==> records_fit(written_records(w)) ==> reads_back(b@, written_records(w)),
{
    let mut w = w;
    let cursor = w.inner.finish()?;
    Ok(cursor.into_inner())
}

/// Why repackaging failed.
#[derive(Debug)]
pub enum IpaError {
    /// Reading or writing a file failed.
    Io(std::io::Error),
    /// The source archive could not be read, or the output archive not written.
    Zip(ZipError),
    /// The source archive does not exist.
    InputFileNotFound(String),
    /// The output directory does not exist or is not a directory.
    OutputDirectoryInvalid(String),
    /// No bundle directory lies within reach in the source archive (named here).
    UnexpectedZipStructure(String),
    /// An entry of the source archive would unpack outside its directory.
    UnsafeEntryPath(String),
    /// The requested output file name cannot be used.
    InvalidIpaName(String),
    /// The produced archive lacks its bundle's marker entry.
    InvalidIpaStructure(String),
}

/// Whether `nodes` is what the entries `listing` unpack to, one node per entry.
pub open spec fn unpacks_to(listing: Seq<(Seq<char>, Seq<u8>)>, nodes: Seq<TreeEntry>) -> bool {
    &&& nodes.len() == listing.len()
    &&& forall|i: int|
        0 <= i < nodes.len() ==> {
            &&& node_path(#[trigger] nodes[i]) == spec_components(listing[i].0)
            &&& nodes[i].is_dir == spec_names_dir(listing[i].0)
            &&& nodes[i].data@ == listing[i].1
        }
}

fn names_dir(name: &str) -> (r: bool)
    ensures
        r == spec_names_dir(name@),
{
    let n = name.unicode_len();
    n > 0 && name.get_char(n - 1) == '/'
}

/// Whether every entry name of `listing` stays inside the unpacking directory.
pub open spec fn all_enclosed(listing: Seq<(Seq<char>, Seq<u8>)>) -> bool {
    forall|i: int| 0 <= i < listing.len() ==> is_enclosed_name(#[trigger] listing[i].0)
}

/// Unpacks the archive held in `bytes` into its tree of nodes. Fails on an
/// archive that does not decode, and on an entry whose name would leave the
/// unpacking directory.
pub fn unpack(bytes: Vec<u8>) -> (r: Result<Vec<TreeEntry>, IpaError>)
    ensures
        r matches Ok(nodes) ==> unpacks_to(decoded_listing(bytes@), nodes@) && all_enclosed(
            decoded_listing(bytes@),
        ),
        archive_decodes(bytes@) && all_enclosed(decoded_listing(bytes@)) ==> r is Ok,
        r matches Err(e) ==> (e matches IpaError::Zip(_) && !archive_decodes(bytes@)) || (e matches IpaError::UnsafeEntryPath(
            name,
        ) && exists|i: int|
            0 <= i < decoded_listing(bytes@).len() && #[trigger] decoded_listing(bytes@)[i].0 == name@
                && !is_enclosed_name(name@)),
{
    let ghost bv = bytes@;
    let ghost listing = decoded_listing(bv);
    let mut a = match open_archive(bytes) {
        Ok(a) => a,
        Err(e) => return Err(IpaError::Zip(e)),
    };
    let n = archive_len(&a);
    let mut nodes: Vec<TreeEntry> = Vec::new();
    let mut i: usize = 0;
    while i < n
        invariant
            bv == bytes@,
            listing == decoded_listing(bv),
            n == listing.len(),
            archive_source(a) == bv,
            i <= n,
            nodes@.len() == i,
            forall|k: int|
                0 <= k < i ==> {
                    &&& node_path(#[trigger] nodes@[k]) == spec_components(listing[k].0)
                    &&& nodes@[k].is_dir == spec_names_dir(listing[k].0)
                    &&& nodes@[k].data@ == listing[k].1
                    &&& is_enclosed_name(listing[k].0)
                },
        decreases n - i,
    {
        let (name, data) = match read_entry(&mut a, i) {
            Ok(t) => t,
            Err(e) => return Err(IpaError::Zip(e)),
        };
        if !entry_name_is_enclosed(name.as_str()) {
            assert(decoded_listing(bv)[i as int].0 == name@);
            proof {
                if archive_decodes(bv) {
                    assert(!all_enclosed(listing));
                }
            }
            return Err(IpaError::UnsafeEntryPath(name));
        }
        let components = path_components(name.as_str());
        let is_dir = names_dir(name.as_str());
        let ghost before = nodes@;
        nodes.push(TreeEntry { components, is_dir, data });
        assert forall|k: int| 0 <= k < i + 1 implies {
            &&& node_path(#[trigger] nodes@[k]) == spec_components(listing[k].0)
            &&& nodes@[k].is_dir == spec_names_dir(listing[k].0)
            &&& nodes@[k].data@ == listing[k].1
            &&& is_enclosed_name(listing[k].0)
        } by {
            if k < i {
                assert(nodes@[k] == before[k]);
            }
        }
        i = i + 1;
    }
    assert forall|k: int| 0 <= k < listing.len() implies is_enclosed_name(#[trigger] decoded_listing(bv)[k].0) by {
        assert(node_path(nodes@[k]) == spec_components(listing[k].0));
    }
    Ok(nodes)
}

/// The record that the output archive holds for a payload entry: its name,
/// kind, permission bits (directories `0o755`, files by content and name),
/// storage method (directories stored, files deflated) and contents.
pub open spec fn entry_record(e: PayloadEntry) -> EntryRecord {
    let name = spec_entry_name(entry_path(e), e.is_dir);
    if e.is_dir {
        (name, true, MODE_EXECUTABLE, EntryMethod::Stored, Seq::empty())
    } else {
        (name, false, spec_file_mode(entry_path(e).last(), e.data@), EntryMethod::Deflated, e.data@)
    }
}

/// The records of the output archive for `es`, in order; an entry whose name
/// would be empty is left out.
pub open spec fn archive_records(es: Seq<PayloadEntry>) -> Seq<EntryRecord>
    decreases es.len(),
{
    if es.len() == 0 {
        Seq::empty()
    } else {
        let r = archive_records(es.drop_last());
        if spec_entry_name(entry_path(es.last()), es.last().is_dir).len() == 0 {
            r
        } else {
            r.push(entry_record(es.last()))
        }
    }
}

/// Whether every entry of `es` gives a record that fits in the archive.
pub open spec fn entries_fit(es: Seq<PayloadEntry>) -> bool {
    forall|k: int| 0 <= k < es.len() ==> record_fits(entry_record(#[trigger] es[k]))
}

/// Every record of `archive_records(es)` is the record of some entry of `es`,
/// and every entry with a non-empty name has its record there.
proof fn lemma_archive_records(es: Seq<PayloadEntry>)
    ensures
        forall|j: int|
            0 <= j < archive_records(es).len() ==> exists|k: int|
                0 <= k < es.len() && #[trigger] archive_records(es)[j] == entry_record(es[k]),
        forall|k: int|
            0 <= k < es.len() && spec_entry_name(entry_path(es[k]), es[k].is_dir).len() > 0 ==> exists|j: int|
                0 <= j < archive_records(es).len() && archive_records(es)[j] == entry_record(#[trigger] es[k]),
    decreases es.len(),
{
    if es.len() > 0 {
        let init = es.drop_last();
        lemma_archive_records(init);
        let r = archive_records(init);
        assert forall|j: int| 0 <= j < archive_records(es).len() implies exists|k: int|
            0 <= k < es.len() && #[trigger] archive_records(es)[j] == entry_record(es[k]) by {
            if j < r.len() {
                let k = choose|k: int| 0 <= k < init.len() && #[trigger] r[j] == entry_record(init[k]);
                assert(es[k] == init[k]);
                assert(archive_records(es)[j] == r[j]);
            } else {
                assert(archive_records(es)[j] == entry_record(es[es.len() - 1]));
            }
        }
        assert forall|k: int|
            0 <= k < es.len() && spec_entry_name(entry_path(es[k]), es[k].is_dir).len() > 0 implies exists|j: int|
            0 <= j < archive_records(es).len() && archive_records(es)[j] == entry_record(#[trigger] es[k]) by {
            if k < init.len() {
                assert(es[k] == init[k]);
                let j = choose|j: int| 0 <= j < r.len() && r[j] == entry_record(#[trigger] init[k]);
                assert(archive_records(es)[j] == r[j]);
            } else {
                assert(archive_records(es)[r.len() as int] == entry_record(es[k]));
            }
        }
    }
}

/// Writes the payload entries into a new archive: directories stored with
/// `0o755`, files deflated with the permission bits their contents and names
/// call for. When every record fits, it succeeds and the archive reads back
/// with exactly the records' names and contents.
pub fn build_archive(entries: &Vec<PayloadEntry>) -> (r: Result<Vec<u8>, IpaError>)
    ensures
        r matches Ok(b) ==> b@ == encoded_archive(archive_records(entries@)),
        entries_fit(entries@) ==> (r matches Ok(b) && reads_back(b@, archive_records(entries@))),
        r matches Err(e) ==> (e matches IpaError::Zip(_) || e matches IpaError::Io(_)) && !entries_fit(entries@),
{
    let mut w = new_writer();
    let mut k: usize = 0;
    while k < entries.len()
        invariant
            k <= entries.len(),
            written_records(w) == archive_records(entries@.subrange(0, k as int)),
            entries_fit(entries@) ==> records_fit(written_records(w)),
        decreases entries.len() - k,
    {
        let e = &entries[k];
        let ghost sub = entries@.subrange(0, k + 1);
        let ghost before = written_records(w);
        assert(sub.drop_last() =~= entries@.subrange(0, k as int));
        assert(sub.last() == entries@[k as int]);
        proof {
            if entries_fit(entries@) && before.len() > 0 {
                assert(record_fits(before[before.len() - 1]));
            }
        }
        let name = zip_name_from_relative_path(&e.components, e.is_dir);
        let len = name.as_str().unicode_len();
        if len > 0 {
            if e.is_dir {
                match add_dir(&mut w, name.as_str(), MODE_EXECUTABLE) {
                    Ok(()) => {},
                    Err(err) => return Err(IpaError::Zip(err)),
                }
            } else {
                let last = e.components.len() - 1;
                let mode = unix_permissions_for_payload_file(e.components[last].as_str(), e.data.as_slice());
                match start_file(&mut w, name.as_str(), mode, EntryMethod::Deflated) {
                    Ok(()) => {},
                    Err(err) => return Err(IpaError::Zip(err)),
                }
                let ghost started = written_records(w);
                proof {
                    if entries_fit(entries@) {
                        assert(record_fits(entry_record(entries@[k as int])));
                    }
                }
                match write_data(&mut w, e.data.as_slice()) {
                    Ok(()) => {},
                    Err(err) => return Err(IpaError::Io(err)),
                }
                assert(Seq::<u8>::empty() + e.data@ =~= e.data@);
                assert(written_records(w) =~= started.update(started.len() - 1, entry_record(entries@[k as int])));
            }
            proof {
                if entries_fit(entries@) {
                    assert(record_fits(entry_record(entries@[k as int])));
                    assert forall|j: int| 0 <= j < written_records(w).len() implies record_fits(
                        #[trigger] written_records(w)[j],
                    ) by {
                        if j < before.len() {
                            assert(written_records(w)[j] == before[j]);
                        }
                    }
                }
            }
        }
        k = k + 1;
    }
    assert(entries@.subrange(0, entries.len() as int) =~= entries@);
    match finish_archive(w) {
        Ok(b) => Ok(b),
        Err(err) => Err(IpaError::Zip(err)),
    }
}

/// The prefix of every entry of the output archive.
pub open spec fn payload_prefix() -> Seq<char> {
    seq!['P', 'a', 'y', 'l', 'o', 'a', 'd', '/']
}

/// The end of the name of a bundle's marker entry.
pub open spec fn marker_suffix() -> Seq<char> {
    seq!['.', 'a', 'p', 'p', '/', 'I', 'n', 'f', 'o', '.', 'p', 'l', 'i', 's', 't']
}

/// Whether an entry name is the marker file of a bundle under `Payload/`.
pub open spec fn is_marker_entry_name(n: Seq<char>) -> bool {
    &&& n.len() >= payload_prefix().len()
    &&& n.subrange(0, payload_prefix().len() as int) == payload_prefix()
    &&& n.len() >= marker_suffix().len()
    &&& n.subrange(n.len() - marker_suffix().len(), n.len() as int) == marker_suffix()
}

/// Whether some entry of `listing` is a bundle's marker file under `Payload/`.
pub open spec fn has_marker_entry(listing: Seq<(Seq<char>, Seq<u8>)>) -> bool {
    exists|k: int| 0 <= k < listing.len() && is_marker_entry_name(#[trigger] listing[k].0)
}

/// The message of the error for a produced archive without a marker entry.
pub open spec fn missing_marker_message() -> Seq<char> {
    "Missing Payload/<App>.app/Info.plist"@
}

/// Checks the entry names of a produced archive: succeeds exactly when one of
/// them is a bundle's marker file under `Payload/`.
pub fn check_payload_names(names: &Vec<String>) -> (r: Result<(), IpaError>)
    ensures
        r is Ok <==> exists|k: int| 0 <= k < names@.len() && is_marker_entry_name(#[trigger] names@[k]@),
        r matches Err(e) ==> e matches IpaError::InvalidIpaStructure(m) && m@ == missing_marker_message(),
{
    let prefix = "Payload/";
    let suffix = ".app/Info.plist";
    proof {
        reveal_strlit("Payload/");
        reveal_strlit(".app/Info.plist");
        assert(prefix@ =~= payload_prefix());
        assert(suffix@ =~= marker_suffix());
    }
    let mut k: usize = 0;
    while k < names.len()
        invariant
            prefix@ == payload_prefix(),
            suffix@ == marker_suffix(),
            k <= names.len(),
            forall|t: int| 0 <= t < k ==> !is_marker_entry_name(#[trigger] names@[t]@),
        decreases names.len() - k,
    {
        let name = names[k].as_str();
        if starts_with_str(name, prefix) && ends_with_str(name, suffix) {
            assert(is_marker_entry_name(names@[k as int]@));
            return Ok(());
        }
        k = k + 1;
    }
    Err(IpaError::InvalidIpaStructure(String::from_str("Missing Payload/<App>.app/Info.plist")))
}

/// Reopens a produced archive and checks that it holds a bundle's marker file
/// under `Payload/`: on an archive that decodes, it succeeds exactly when
/// such an entry is there.
pub fn validate_generated_ipa(bytes: &Vec<u8>) -> (r: Result<(), IpaError>)
    ensures
        r is Ok ==> has_marker_entry(decoded_listing(bytes@)),
        archive_decodes(bytes@) ==> (r is Ok <==> has_marker_entry(decoded_listing(bytes@))),
        r matches Err(e) ==> (e matches IpaError::Zip(_) && !archive_decodes(bytes@)) || (
        e matches IpaError::InvalidIpaStructure(m) && m@ == missing_marker_message() && !has_marker_entry(
            decoded_listing(bytes@),
        )),
{
    let ghost listing = decoded_listing(bytes@);
    let copy = vstd::slice::slice_to_vec(bytes.as_slice());
    let mut a = match open_archive(copy) {
        Ok(a) => a,
        Err(e) => return Err(IpaError::Zip(e)),
    };
    let n = archive_len(&a);
    let mut names: Vec<String> = Vec::new();
    let mut i: usize = 0;
    while i < n
        invariant
            listing == decoded_listing(bytes@),
            n == listing.len(),
            archive_source(a) == bytes@,
            i <= n,
            names@.len() == i,
            forall|k: int| 0 <= k < i ==> #[trigger] names@[k]@ == listing[k].0,
        decreases n - i,
    {
        let (name, _data) = match read_entry(&mut a, i) {
            Ok(t) => t,
            Err(e) => return Err(IpaError::Zip(e)),
        };
        names.push(name);
        assert(names@[i as int]@ == listing[i as int].0);
        i = i + 1;
    }
    let r = check_payload_names(&names);
    proof {
        if r is Ok {
            let k = choose|k: int| 0 <= k < names@.len() && is_marker_entry_name(#[trigger] names@[k]@);
            assert(is_marker_entry_name(listing[k].0));
        } else {
            assert forall|k: int| 0 <= k < listing.len() implies !is_marker_entry_name(#[trigger] listing[k].0) by {
                assert(names@[k]@ == listing[k].0);
            }
        }
    }
    r
}

/// Whether some entry of `listing` is the marker file of a bundle within reach.
pub open spec fn has_bundle(listing: Seq<(Seq<char>, Seq<u8>)>) -> bool {
    exists|i: int| 0 <= i < listing.len() && is_marker_path(spec_components(#[trigger] listing[i].0))
}

/// Whether the archive held in `input` decodes and none of its entries would
/// leave the unpacking directory.
pub open spec fn readable_input(input: Seq<u8>) -> bool {
    archive_decodes(input) && all_enclosed(decoded_listing(input))
}

/// Whether the payload that `input` gives fits in an archive: every entry
/// name under 16384 characters and every file under 2 GiB.
pub open spec fn payload_fits(input: Seq<u8>) -> bool {
    forall|nodes: Seq<TreeEntry>, b: Seq<Seq<char>>, es: Seq<PayloadEntry>|
        unpacks_to(decoded_listing(input), nodes) && is_selected_bundle(nodes, b) && #[trigger] is_payload_of(
            nodes,
            b,
            es,
        ) ==> entries_fit(es)
}

/// Whether the marker of the selected bundle of `input` is a file (the last
/// node at its path is not a directory).
pub open spec fn marker_is_file(input: Seq<u8>) -> bool {
    forall|nodes: Seq<TreeEntry>, b: Seq<Seq<char>>|
        unpacks_to(decoded_listing(input), nodes) && #[trigger] is_selected_bundle(nodes, b) ==> exists|i: int|
            file_from(nodes, b, i) && #[trigger] node_path(nodes[i]) == b.push(marker())
}

/// The archives that repackaging `input` may produce: written from the
/// payload of the selected bundle of what `input` unpacks to, and reopening
/// with a bundle's marker file under `Payload/`.
pub open spec fn is_repackaging_of(input: Seq<u8>, out: Seq<u8>) -> bool {
    exists|nodes: Seq<TreeEntry>, b: Seq<Seq<char>>, es: Seq<PayloadEntry>|
        {
            &&& unpacks_to(decoded_listing(input), nodes)
            &&& is_selected_bundle(nodes, b)
            &&& #[trigger] is_payload_of(nodes, b, es)
            &&& out == encoded_archive(archive_records(es))
            &&& has_marker_entry(decoded_listing(out))
        }
}

/// The entry name of a bundle's marker file under `Payload/` is a marker entry name.
proof fn lemma_marker_entry_name(bn: Seq<char>)
    requires
        has_extension(bn, app_ext()),
    ensures
        is_marker_entry_name(join_slash(seq![payload_dir(), bn, marker()])),
{
    let p3 = seq![payload_dir(), bn, marker()];
    let p2 = seq![payload_dir(), bn];
    assert(p3.drop_last() =~= p2);
    assert(p2.drop_last() =~= seq![payload_dir()]);
    let name = payload_dir() + seq!['/'] + bn + seq!['/'] + marker();
    assert(join_slash(seq![payload_dir()]) == payload_dir());
    assert(p2.last() == bn);
    assert(join_slash(p2) == join_slash(seq![payload_dir()]) + seq!['/'] + bn);
    assert(p3.last() == marker());
    assert(join_slash(p3) == join_slash(p2) + seq!['/'] + marker());
    assert(join_slash(p3) =~= name);
    assert(name.subrange(0, 8) =~= payload_prefix());
    let n = name.len() as int;
    let tail = bn.subrange(bn.len() - 4, bn.len() as int);
    assert(tail =~= app_ext());
    assert forall|k: int| 0 <= k < 15 implies name.subrange(n - 15, n)[k] == marker_suffix()[k] by {
        if k < 4 {
            assert(name[n - 15 + k] == bn[bn.len() - 4 + k]);
            assert(tail[k] == bn[bn.len() - 4 + k]);
        }
    }
    assert(name.subrange(n - 15, n) =~= marker_suffix());
}

/// An archive read back from the payload of a bundle whose marker is a file
/// holds a marker entry.
proof fn lemma_payload_has_marker(
    nodes: Seq<TreeEntry>,
    b: Seq<Seq<char>>,
    es: Seq<PayloadEntry>,
    out: Seq<u8>,
    i0: int,
)
    requires
        is_payload_of(nodes, b, es),
        0 <= i0 < nodes.len(),
        is_marker_path(node_path(nodes[i0])),
        node_path(nodes[i0]).drop_last() == b,
        exists|i: int| file_from(nodes, b, i) && #[trigger] node_path(nodes[i]) == b.push(marker()),
        reads_back(out, archive_records(es)),
    ensures
        has_marker_entry(decoded_listing(out)),
{
    let i = choose|i: int| file_from(nodes, b, i) && #[trigger] node_path(nodes[i]) == b.push(marker());
    let root = crate::layout::payload_root(b);
    assert(rest_of(nodes, b, i) =~= seq![marker()]);
    assert(has_file_entry(es, root + rest_of(nodes, b, i), nodes[i].data@));
    let k = choose|k: int|
        2 <= k < es.len() && !es[k].is_dir && #[trigger] entry_path(es[k]) == root + rest_of(nodes, b, i)
            && es[k].data@ == nodes[i].data@;
    assert(root + rest_of(nodes, b, i) =~= seq![payload_dir(), b.last(), marker()]);
    assert(node_path(nodes[i0])[node_path(nodes[i0]).len() - 2] == b.last());
    lemma_marker_entry_name(b.last());
    lemma_archive_records(es);
    let name = spec_entry_name(entry_path(es[k]), false);
    assert(name.len() > 0);
    let j = choose|j: int| 0 <= j < archive_records(es).len() && archive_records(es)[j] == entry_record(#[trigger] es[k]);
    assert(decoded_listing(out)[j].0 == name);
    assert(is_marker_entry_name(decoded_listing(out)[j].0));
}

/// Repackages the archive held in `input` (read from `source`): unpacks it,
/// selects its bundle, assembles `Payload/<bundle>/` and returns the bytes of
/// the new archive once it has been reopened and checked. It succeeds on every
/// input that decodes, stays enclosed, holds a bundle whose marker is a file,
/// and fits; each error comes only where its cause holds.
pub fn repackage(input: Vec<u8>, source: &str) -> (r: Result<Vec<u8>, IpaError>)
    ensures
        r matches Ok(out) ==> is_repackaging_of(input@, out@),
        readable_input(input@) && has_bundle(decoded_listing(input@)) && payload_fits(input@) && marker_is_file(
            input@,
        ) ==> r is Ok,
        readable_input(input@) && !has_bundle(decoded_listing(input@)) ==> (r matches Err(
            IpaError::UnexpectedZipStructure(s),
        ) && s@ == source@),
        r matches Err(e) ==> {
            ||| e matches IpaError::Zip(_) && (!archive_decodes(input@) || !payload_fits(input@))
            ||| e matches IpaError::Io(_) && !payload_fits(input@)
            ||| e matches IpaError::UnsafeEntryPath(n) && exists|i: int|
                0 <= i < decoded_listing(input@).len() && #[trigger] decoded_listing(input@)[i].0 == n@
                    && !is_enclosed_name(n@)
            ||| e matches IpaError::UnexpectedZipStructure(s) && s@ == source@ && !has_bundle(
                decoded_listing(input@),
            )
            ||| e matches IpaError::InvalidIpaStructure(m) && m@ == missing_marker_message() && (!payload_fits(
                input@,
            ) || !marker_is_file(input@))
        },
{
    let ghost iv = input@;
    let ghost listing = decoded_listing(input@);
    let nodes = match unpack(input) {
        Ok(nodes) => nodes,
        Err(e) => return Err(e),
    };
    let bundle = match locate_bundle(&nodes) {
        Some(b) => b,
        None => {
            proof {
                if has_bundle(listing) {
                    let i = choose|i: int| 0 <= i < listing.len() && is_marker_path(spec_components(#[trigger] listing[i].0));
                    assert(node_path(nodes@[i]) == spec_components(listing[i].0));
                    assert(is_bundle_at(nodes@, node_path(nodes@[i]).drop_last()));
                }
            }
            return Err(IpaError::UnexpectedZipStructure(source.to_string()));
        },
    };
    let ghost b = views(bundle@);
    let ghost i0 = choose|i: int|
        0 <= i < nodes@.len() && is_marker_path(#[trigger] node_path(nodes@[i])) && node_path(nodes@[i]).drop_last() == b;
    proof {
        assert(views(bundle@).len() >= 1);
        assert(node_path(nodes@[i0]) == spec_components(listing[i0].0));
        assert(has_bundle(listing));
    }
    let entries = assemble_payload(&nodes, &bundle);
    proof {
        assert(is_payload_of(nodes@, b, entries@));
    }
    let out = match build_archive(&entries) {
        Ok(o) => o,
        Err(e) => return Err(e),
    };
    proof {
        if payload_fits(iv) && marker_is_file(iv) {
            assert(entries_fit(entries@));
            lemma_payload_has_marker(nodes@, b, entries@, out@, i0);
        }
    }
    match validate_generated_ipa(&out) {
        Ok(()) => {},
        Err(e) => return Err(e),
    }
    proof {
        assert(node_path(nodes@[i0]) == spec_components(listing[i0].0));
        assert(is_payload_of(nodes@, b, entries@));
    }
    Ok(out)
}

/// Checks a packaging request before any archive work: the source must exist,
/// the output directory must be a directory, and the output name, once
/// trimmed, must be a valid archive file name. Returns the trimmed name.
pub fn check_request(
    input_exists: bool,
    output_is_dir: bool,
    input_path: &str,
    output_dir: &str,
    output_name: &str,
) -> (r: Result<String, IpaError>)
    ensures
        !input_exists ==> (r matches Err(IpaError::InputFileNotFound(p)) && p@ == input_path@),
        input_exists && !output_is_dir ==> (r matches Err(IpaError::OutputDirectoryInvalid(d)) && d@
            == output_dir@),
        input_exists && output_is_dir && is_valid_output_name(trimmed(output_name@)) ==> (r matches Ok(
            t,
        ) && t@ == trimmed(output_name@)),
        input_exists && output_is_dir && !is_valid_output_name(trimmed(output_name@)) ==> (r matches Err(
            IpaError::InvalidIpaName(t),
        ) && t@ == trimmed(output_name@)),
{
    if !input_exists {
        return Err(IpaError::InputFileNotFound(input_path.to_string()));
    }
    if !output_is_dir {
        return Err(IpaError::OutputDirectoryInvalid(output_dir.to_string()));
    }
    let name = trim_text(output_name);
    if !is_valid_ipa_name(name.as_str()) {
        return Err(IpaError::InvalidIpaName(name));
    }
    Ok(name)
}

/// Whether `es` lists an entry at `p` of kind `is_dir` holding `d`.
pub open spec fn lists_entry(es: Seq<PayloadEntry>, p: Seq<Seq<char>>, is_dir: bool, d: Seq<u8>) -> bool {
    exists|k: int| 0 <= k < es.len() && es[k].is_dir == is_dir && #[trigger] entry_path(es[k]) == p && es[k].data@ == d
}

/// Whether every entry of `es1` (path, kind and contents) is listed in `es2`.
pub open spec fn entries_within(es1: Seq<PayloadEntry>, es2: Seq<PayloadEntry>) -> bool {
    forall|k: int| 0 <= k < es1.len() ==> lists_entry(es2, entry_path(#[trigger] es1[k]), es1[k].is_dir, es1[k].data@)
}

/// Whether two unpacked trees have the same paths, kinds and contents, node by node.
pub open spec fn same_tree(n1: Seq<TreeEntry>, n2: Seq<TreeEntry>) -> bool {
    &&& n1.len() == n2.len()
    &&& forall|i: int|
        0 <= i < n1.len() ==> {
            &&& node_path(#[trigger] n1[i]) == node_path(n2[i])
            &&& n1[i].is_dir == n2[i].is_dir
            &&& n1[i].data@ == n2[i].data@
        }
}

proof fn lemma_unpacked_trees_agree(listing: Seq<(Seq<char>, Seq<u8>)>, n1: Seq<TreeEntry>, n2: Seq<TreeEntry>)
    requires
        unpacks_to(listing, n1),
        unpacks_to(listing, n2),
    ensures
        same_tree(n1, n2),
        same_tree(n2, n1),
        forall|i: int| 0 <= i < n1.len() ==> well_formed_path(#[trigger] node_path(n1[i])),
{
    assert forall|i: int| 0 <= i < n1.len() implies well_formed_path(#[trigger] node_path(n1[i])) by {
        lemma_components_well_formed(listing[i].0);
    }
    assert forall|i: int| 0 <= i < n1.len() implies node_path(#[trigger] n1[i]) == node_path(n2[i]) by {
        assert(node_path(n2[i]) == spec_components(listing[i].0));
    }
    assert forall|i: int| 0 <= i < n2.len() implies node_path(#[trigger] n2[i]) == node_path(n1[i]) by {
        assert(node_path(n1[i]) == spec_components(listing[i].0));
    }
}

proof fn lemma_selected_transfers(n1: Seq<TreeEntry>, n2: Seq<TreeEntry>, b: Seq<Seq<char>>)
    requires
        same_tree(n1, n2),
        is_selected_bundle(n2, b),
    ensures
        is_selected_bundle(n1, b),
{
    assert forall|c: Seq<Seq<char>>| is_bundle_at(n1, c) implies is_bundle_at(n2, c) by {
        let i = choose|i: int| 0 <= i < n1.len() && is_marker_path(#[trigger] node_path(n1[i])) && node_path(n1[i]).drop_last() == c;
        assert(node_path(n2[i]) == node_path(n1[i]));
    }
    let i = choose|i: int| 0 <= i < n2.len() && is_marker_path(#[trigger] node_path(n2[i])) && node_path(n2[i]).drop_last() == b;
    assert(node_path(n1[i]) == node_path(n2[i]));
}

proof fn lemma_payload_within(
    n1: Seq<TreeEntry>,
    n2: Seq<TreeEntry>,
    b: Seq<Seq<char>>,
    es1: Seq<PayloadEntry>,
    es2: Seq<PayloadEntry>,
)
    requires
        same_tree(n1, n2),
        is_payload_of(n1, b, es1),
        is_payload_of(n2, b, es2),
    ensures
        entries_within(es1, es2),
{
    assert forall|k: int| 0 <= k < es1.len() implies lists_entry(
        es2,
        entry_path(#[trigger] es1[k]),
        es1[k].is_dir,
        es1[k].data@,
    ) by {
        if k < 2 {
            assert(es2[k].data@ =~= es1[k].data@);
            assert(entry_path(es2[k]) == entry_path(es1[k]));
        } else if es1[k].is_dir {
            let (i, j) = choose|i: int, j: int|
                dir_from(n1, b, i, j) && entry_path(es1[k]) == crate::layout::payload_root(b) + rest_of(n1, b, i).subrange(0, j);
            assert(node_path(n1[i]) == node_path(n2[i]));
            assert(rest_of(n1, b, i) == rest_of(n2, b, i));
            assert(dir_from(n2, b, i, j));
            assert(has_dir_entry(es2, crate::layout::payload_root(b) + rest_of(n2, b, i).subrange(0, j)));
            let k2 = choose|k2: int|
                2 <= k2 < es2.len() && es2[k2].is_dir && #[trigger] entry_path(es2[k2]) == crate::layout::payload_root(b)
                    + rest_of(n2, b, i).subrange(0, j);
            assert(es2[k2].data@ =~= es1[k].data@);
        } else {
            let i = choose|i: int|
                file_from(n1, b, i) && entry_path(es1[k]) == crate::layout::payload_root(b) + rest_of(n1, b, i) && es1[k].data@
                    == n1[i].data@;
            assert(node_path(n1[i]) == node_path(n2[i]));
            assert(rest_of(n1, b, i) == rest_of(n2, b, i));
            assert forall|j: int| i < j < n2.len() implies node_path(#[trigger] n2[j]) != node_path(n2[i]) by {
                assert(node_path(n1[j]) == node_path(n2[j]));
            }
            assert(file_from(n2, b, i));
            assert(has_file_entry(es2, crate::layout::payload_root(b) + rest_of(n2, b, i), n2[i].data@));
            let k2 = choose|k2: int|
                2 <= k2 < es2.len() && !es2[k2].is_dir && #[trigger] entry_path(es2[k2]) == crate::layout::payload_root(b)
                    + rest_of(n2, b, i) && es2[k2].data@ == n2[i].data@;
        }
    }
}

/// Repackaging the same input again gives the same archive contents: any two
/// archives that repackaging one input may produce both reopen with a bundle
/// marker, and they are written from the same entries (every path, kind and
/// contents of one is in the other), so a second run replaces the first with
/// an equivalent archive.
pub proof fn lemma_repackaging_repeatable(input: Seq<u8>, out1: Seq<u8>, out2: Seq<u8>)
    requires
        is_repackaging_of(input, out1),
        is_repackaging_of(input, out2),
    ensures
        has_marker_entry(decoded_listing(out1)),
        has_marker_entry(decoded_listing(out2)),
        exists|es1: Seq<PayloadEntry>, es2: Seq<PayloadEntry>|
            {
                &&& out1 == encoded_archive(archive_records(es1))
                &&& out2 == encoded_archive(archive_records(es2))
                &&& #[trigger] entries_within(es1, es2)
                &&& entries_within(es2, es1)
            },
{
    let listing = decoded_listing(input);
    let (n1, b1, es1) = choose|nodes: Seq<TreeEntry>, b: Seq<Seq<char>>, es: Seq<PayloadEntry>|
        {
            &&& unpacks_to(listing, nodes)
            &&& is_selected_bundle(nodes, b)
            &&& #[trigger] is_payload_of(nodes, b, es)
            &&& out1 == encoded_archive(archive_records(es))
            &&& has_marker_entry(decoded_listing(out1))
        };
    let (n2, b2, es2) = choose|nodes: Seq<TreeEntry>, b: Seq<Seq<char>>, es: Seq<PayloadEntry>|
        {
            &&& unpacks_to(listing, nodes)
            &&& is_selected_bundle(nodes, b)
            &&& #[trigger] is_payload_of(nodes, b, es)
            &&& out2 == encoded_archive(archive_records(es))
            &&& has_marker_entry(decoded_listing(out2))
        };
    lemma_unpacked_trees_agree(listing, n1, n2);
    lemma_selected_transfers(n1, n2, b2);
    lemma_selected_bundle_unique(n1, b1, b2);
    lemma_payload_within(n1, n2, b1, es1, es2);
    lemma_payload_within(n2, n1, b1, es2, es1);
}

} // verus!
