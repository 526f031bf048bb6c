//! The zip container of an Office package, read with the zip crate from the
//! bytes of the file.

use vstd::prelude::*;

verus! {

/// Why a named part of a package could not be read.
#[derive(Debug)]
pub enum PartFault {
    /// The bytes are not a zip archive.
    Archive(String),
    /// The archive has no readable entry of that name.
    Entry(String),
    /// The entry could not be read to the end as UTF-8 text.
    Content(String),
}

/// The outcome of reading a named part, in the abstract.
pub enum PartRead {
    Text(Seq<char>),
    ArchiveFault(Seq<char>),
    EntryFault(Seq<char>),
    ContentFault(Seq<char>),
}

/// The abstract value of reading a named part.
pub open spec fn part_read(r: Result<String, PartFault>) -> PartRead {
    match r {
        Ok(t) => PartRead::Text(t@),
        Err(PartFault::Archive(m)) => PartRead::ArchiveFault(m@),
        Err(PartFault::Entry(m)) => PartRead::EntryFault(m@),
        Err(PartFault::Content(m)) => PartRead::ContentFault(m@),
    }
}

/// What reading the part `name` of the zip archive `archive` gives.
pub uninterp spec fn zip_part(archive: Seq<u8>, name: Seq<char>) -> PartRead;

/// zip's `ZipArchive::new`, `ZipArchive::by_name` and the entry's
/// `read_to_string`, each failure tagged with the step that failed and turned
/// into its message. Claimed: the outcome is `zip_part` of the bytes and the
/// name.
#[verifier::external_body]
pub(crate) fn read_part(archive: &[u8], name: &str) -> (res: Result<String, PartFault>)
    ensures
        part_read(res) == zip_part(archive@, name@),
{
    let mut zip = zip::ZipArchive::new(std::io::Cursor::new(archive)).map_err(|e| PartFault::Archive(e.to_string()))?;
    let mut part = zip.by_name(name).map_err(|e| PartFault::Entry(e.to_string()))?;
    let mut text = String::new();
    std::io::Read::read_to_string(&mut part, &mut text).map_err(|e| PartFault::Content(e.to_string()))?;
    Ok(text)
}

/// The number of entries of the zip archive `archive`, or why it is not one.
pub uninterp spec fn zip_entry_count(archive: Seq<u8>) -> Result<nat, Seq<char>>;

/// zip's `ZipArchive::new` and `ZipArchive::len`, the error turned into its
/// message. Claimed: the outcome is `zip_entry_count` of the bytes.
#[verifier::external_body]
pub(crate) fn entry_count(archive: &[u8]) -> (res: Result<usize, String>)
    ensures
        match res {
            Ok(n) => zip_entry_count(archive@) == Ok::<nat, Seq<char>>(n as nat),
            Err(m) => zip_entry_count(archive@) == Err::<nat, Seq<char>>(m@),
        },
{
    zip::ZipArchive::new(std::io::Cursor::new(archive)).map(|z| z.len()).map_err(|e| e.to_string())
}

/// The name of entry `index` of the zip archive `archive`, or why it cannot
/// be had.
pub uninterp spec fn zip_entry_name(archive: Seq<u8>, index: nat) -> Result<Seq<char>, Seq<char>>;

/// zip's `ZipArchive::new`, `ZipArchive::by_index` and `ZipFile::name`, errors
/// turned into their messages. Claimed: the outcome is `zip_entry_name` of the
/// bytes and the index.
#[verifier::external_body]
pub(crate) fn entry_name(archive: &[u8], index: usize) -> (res: Result<String, String>)
    ensures
        match res {
            Ok(t) => zip_entry_name(archive@, index as nat) == Ok::<Seq<char>, Seq<char>>(t@),
            Err(m) => zip_entry_name(archive@, index as nat) == Err::<Seq<char>, Seq<char>>(m@),
        },
{
    let mut zip = zip::ZipArchive::new(std::io::Cursor::new(archive)).map_err(|e| e.to_string())?;
    let entry = zip.by_index(index).map_err(|e| e.to_string())?;
    Ok(entry.name().to_string())
}

/// The content of entry `index` of the zip archive `archive` as text, or why
/// it cannot be had.
pub uninterp spec fn zip_entry_text(archive: Seq<u8>, index: nat) -> Result<Seq<char>, Seq<char>>;

/// zip's `ZipArchive::new`, `ZipArchive::by_index` and the entry's
/// `read_to_string`, errors turned into their messages. Claimed: the outcome
/// is `zip_entry_text` of the bytes and the index.
#[verifier::external_body]
pub(crate) fn entry_text(archive: &[u8], index: usize) -> (res: Result<String, String>)
    ensures
        match res {
            Ok(t) => zip_entry_text(archive@, index as nat) == Ok::<Seq<char>, Seq<char>>(t@),
            Err(m) => zip_entry_text(archive@, index as nat) == Err::<Seq<char>, Seq<char>>(m@),
        },
{
    let mut zip = zip::ZipArchive::new(std::io::Cursor::new(archive)).map_err(|e| e.to_string())?;
    let mut entry = zip.by_index(index).map_err(|e| e.to_string())?;
    let mut text = String::new();
    std::io::Read::read_to_string(&mut entry, &mut text).map_err(|e| e.to_string())?;
    Ok(text)
}

/// The name under which the zip directory of `archive` lists entry `index`;
/// nothing when the bytes are not a zip archive or there is no such entry.
pub uninterp spec fn zip_listed_name(archive: Seq<u8>, index: nat) -> Option<Seq<char>>;

/// zip's `ZipArchive::new` and `ZipArchive::name_for_index`, which reads the
/// name from the directory without opening the entry; a failure to open the
/// archive turned into nothing. Claimed: the outcome is `zip_listed_name` of
/// the bytes and the index.
#[verifier::external_body]
pub(crate) fn listed_name(archive: &[u8], index: usize) -> (res: Option<String>)
    ensures
        match res {
            Some(t) => zip_listed_name(archive@, index as nat) == Some(t@),
            None => zip_listed_name(archive@, index as nat) == None::<Seq<char>>,
        },
{
    let zip = zip::ZipArchive::new(std::io::Cursor::new(archive)).ok()?;
    zip.name_for_index(index).map(|n| n.to_string())
}

/// The uncompressed size and the CRC-32 that the zip directory records for
/// entry `index` of the zip archive `archive`, or why the entry cannot be had.
pub uninterp spec fn zip_entry_fingerprint(archive: Seq<u8>, index: nat) -> Result<(nat, nat), Seq<char>>;

/// zip's `ZipArchive::new`, `ZipArchive::by_index_raw` (the entry as stored,
/// neither decrypted nor decompressed) and the entry's `size` and `crc32`,
/// errors turned into their messages. Claimed: the outcome is
/// `zip_entry_fingerprint` of the bytes and the index.
#[verifier::external_body]
pub(crate) fn entry_fingerprint(archive: &[u8], index: usize) -> (res: Result<(u64, u32), String>)
    ensures
        match res {
            Ok((size, crc)) => zip_entry_fingerprint(archive@, index as nat) == Ok::<(nat, nat), Seq<char>>(
                (size as nat, crc as nat),
            ),
            Err(m) => zip_entry_fingerprint(archive@, index as nat) == Err::<(nat, nat), Seq<char>>(m@),
        },
{
    let mut zip = zip::ZipArchive::new(std::io::Cursor::new(archive)).map_err(|e| e.to_string())?;
    let entry = zip.by_index_raw(index).map_err(|e| e.to_string())?;
    Ok((entry.size(), entry.crc32()))
}

} // verus!
