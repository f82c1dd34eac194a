//! The entries of a ZIP archive.
use crate::json::texts_outcome;
use crate::text::text_outcome;
use std::io::Cursor;
use std::io::Read;
use vstd::prelude::*;
use zip::ZipArchive;

verus! {

/// `std::io::Cursor`, through which bytes in memory are read.
#[verifier::external_type_specification]
#[verifier::external_body]
#[verifier::reject_recursive_types(T)]
pub struct ExCursor<T>(std::io::Cursor<T>);

/// `zip::ZipArchive`, an archive that is open for reading.
#[verifier::external_type_specification]
#[verifier::external_body]
#[verifier::reject_recursive_types(R)]
pub struct ExZipArchive<R>(zip::ZipArchive<R>);

/// The bytes that an open archive reads from.
pub uninterp spec fn archive_bytes(archive: ZipArchive<Cursor<Vec<u8>>>) -> Seq<u8>;

/// Why bytes cannot be read as an archive, or nothing.
pub uninterp spec fn archive_complaint(bytes: Seq<u8>) -> Option<Seq<char>>;

/// The size that an archive gives for an entry once it is unpacked, or why there is no
/// such entry.
pub uninterp spec fn entry_size_of(bytes: Seq<u8>, name: Seq<char>) -> Result<u64, Seq<char>>;

/// The text of at most `limit` bytes of an unpacked entry, or why it cannot be read.
pub uninterp spec fn entry_text_of(bytes: Seq<u8>, name: Seq<char>, limit: u64) -> Result<
    Seq<char>,
    Seq<char>,
>;

/// The names of the entries of an archive, in its order, or why they cannot be told.
pub uninterp spec fn entry_names_of(bytes: Seq<u8>) -> Result<Seq<Seq<char>>, Seq<char>>;

/// The bytes of an unpacked entry, or why they cannot be read.
pub uninterp spec fn entry_bytes_of(bytes: Seq<u8>, name: Seq<char>) -> Result<
    Seq<u8>,
    Seq<char>,
>;

/// Bytes or a message, by their content.
pub open spec fn bytes_outcome(outcome: Result<Vec<u8>, String>) -> Result<Seq<u8>, Seq<char>> {
    match outcome {
        Ok(bytes) => Ok(bytes@),
        Err(message) => Err(message@),
    }
}

/// A size or a message, by their content.
pub open spec fn size_outcome(outcome: Result<u64, String>) -> Result<u64, Seq<char>> {
    match outcome {
        Ok(size) => Ok(size),
        Err(message) => Err(message@),
    }
}

/// Whether opening bytes as an archive went as it must.
pub open spec fn is_opened(
    outcome: Result<ZipArchive<Cursor<Vec<u8>>>, String>,
    bytes: Seq<u8>,
    complaint: Option<Seq<char>>,
) -> bool {
    match outcome {
        Ok(archive) => complaint is None && archive_bytes(archive) == bytes,
        Err(message) => complaint == Some(message@),
    }
}

/// `zip::ZipArchive::new` opens an archive, or complains. The bytes decide which.
#[verifier::external_body]
pub(crate) fn open_archive(bytes: Vec<u8>) -> (outcome: Result<ZipArchive<Cursor<Vec<u8>>>, String>)
    ensures
        is_opened(outcome, bytes@, archive_complaint(bytes@)),
{
    ZipArchive::new(Cursor::new(bytes)).map_err(|error| error.to_string())
}

/// `zip::ZipArchive::by_name` finds an entry, and `zip::read::ZipFile::size` gives the
/// size that the archive states for it. The bytes of the archive and the name decide
/// the outcome, and the archive stays as it is.
#[verifier::external_body]
pub(crate) fn entry_size(archive: &mut ZipArchive<Cursor<Vec<u8>>>, name: &str) -> (outcome: Result<
    u64,
    String,
>)
    ensures
        size_outcome(outcome) == entry_size_of(archive_bytes(*old(archive)), name@),
        archive_bytes(*final(archive)) == archive_bytes(*old(archive)),
{
    archive.by_name(name).map(|entry| entry.size()).map_err(|error| error.to_string())
}

/// `zip::ZipArchive::by_name` finds an entry, and `std::io::Read` unpacks its first
/// `limit` bytes as text. The bytes of the archive, the name and the limit decide the
/// outcome, and the archive stays as it is.
#[verifier::external_body]
pub(crate) fn entry_text(archive: &mut ZipArchive<Cursor<Vec<u8>>>, name: &str, limit: u64) -> (outcome:
    Result<String, String>)
    ensures
        text_outcome(outcome) == entry_text_of(archive_bytes(*old(archive)), name@, limit),
        archive_bytes(*final(archive)) == archive_bytes(*old(archive)),
{
    let entry = archive.by_name(name).map_err(|error| error.to_string())?;
    let mut text = String::new();
    entry.take(limit).read_to_string(&mut text).map_err(|error| error.to_string())?;
    Ok(text)
}

/// `zip::ZipArchive::file_names` gives the names of the entries. The bytes of the archive
/// decide them.
#[verifier::external_body]
pub(crate) fn entry_names(archive: &ZipArchive<Cursor<Vec<u8>>>) -> (outcome: Result<
    Vec<String>,
    String,
>)
    ensures
        texts_outcome(outcome) == entry_names_of(archive_bytes(*archive)),
{
    let names = archive.file_names().map(|name| name.map(|text| text.into_owned()));
    names.collect::<Result<Vec<String>, _>>().map_err(|error| error.to_string())
}

/// `zip::ZipArchive::by_name` finds an entry, and `std::io::Read::read_to_end` unpacks it.
/// The bytes of the archive and the name decide the outcome, and the archive stays as it
/// is.
#[verifier::external_body]
pub(crate) fn entry_bytes(archive: &mut ZipArchive<Cursor<Vec<u8>>>, name: &str) -> (outcome:
    Result<Vec<u8>, String>)
    ensures
        bytes_outcome(outcome) == entry_bytes_of(archive_bytes(*old(archive)), name@),
        archive_bytes(*final(archive)) == archive_bytes(*old(archive)),
{
    let mut entry = archive.by_name(name).map_err(|error| error.to_string())?;
    let mut bytes = Vec::new();
    entry.read_to_end(&mut bytes).map_err(|error| error.to_string())?;
    Ok(bytes)
}

} // verus!
