use vstd::prelude::*;
use crate::str_views;
use std::io::Read;

verus! {

// All archive reads go through the `zip` crate.  The crate is trusted for
// exactly this much: a zip archive either parses or does not, the parse is a
// function of the bytes alone, and so are the entry listing (kept in
// central-directory order), each entry's kind and each entry's uncompressed
// content.  Everything around these calls is verified.

#[verifier::external_type_specification]
#[verifier::external_body]
#[verifier::reject_recursive_types(R)]
pub struct ExZipArchive<R>(zip::ZipArchive<R>);

#[verifier::external_type_specification]
#[verifier::external_body]
#[verifier::reject_recursive_types(T)]
pub struct ExCursor<T>(std::io::Cursor<T>);

#[verifier::external_type_specification]
#[verifier::external_body]
pub struct ExZipError(zip::result::ZipError);

/// The names a zip archive with these bytes lists, in central-directory order;
/// `None` when the bytes do not parse as a zip archive.
pub uninterp spec fn zip_listing(bytes: Seq<u8>) -> Option<Seq<Seq<char>>>;

/// Whether the entry of this name in the archive with these bytes is a plain
/// file, neither a directory nor a symbolic link; `None` when the lookup fails.
pub uninterp spec fn zip_entry_is_file(bytes: Seq<u8>, name: Seq<char>) -> Option<bool>;

/// The whole uncompressed content of the entry of this name in the archive
/// with these bytes; `None` when the lookup or the read fails.
pub uninterp spec fn zip_entry_data(bytes: Seq<u8>, name: Seq<char>) -> Option<Seq<u8>>;

/// The names an open archive lists, in order.
pub uninterp spec fn archive_listing(a: zip::ZipArchive<std::io::Cursor<Vec<u8>>>) -> Seq<
    Seq<char>,
>;

/// Whether the entry of this name of an open archive is a plain file.
pub uninterp spec fn archive_is_file(
    a: zip::ZipArchive<std::io::Cursor<Vec<u8>>>,
    name: Seq<char>,
) -> Option<bool>;

/// The whole uncompressed content of the entry of this name of an open archive.
pub uninterp spec fn archive_data(
    a: zip::ZipArchive<std::io::Cursor<Vec<u8>>>,
    name: Seq<char>,
) -> Option<Seq<u8>>;

/// Relies on zip::ZipArchive::new over an in-memory reader: whether the bytes
/// parse as a zip archive is determined by the bytes alone, and so is the
/// archive that comes back — its listing, its entries' kinds and their
/// contents.
#[verifier::external_body]
pub(crate) fn open_archive(bytes: Vec<u8>) -> (r: Result<
    zip::ZipArchive<std::io::Cursor<Vec<u8>>>,
    zip::result::ZipError,
>)
    ensures
        r is Ok <==> zip_listing(bytes@) is Some,
        (r matches Ok(a) ==> {
            &&& zip_listing(bytes@) == Some(archive_listing(a))
            &&& forall|n: Seq<char>| #[trigger]
                archive_is_file(a, n) == zip_entry_is_file(bytes@, n)
            &&& forall|n: Seq<char>| #[trigger] archive_data(a, n) == zip_entry_data(bytes@, n)
        }),
{
    zip::ZipArchive::new(std::io::Cursor::new(bytes))
}

/// Relies on zip::ZipArchive::file_names: it yields every entry's name, in
/// central-directory order.
#[verifier::external_body]
pub(crate) fn list_entry_names(a: &zip::ZipArchive<std::io::Cursor<Vec<u8>>>) -> (r: Vec<String>)
    ensures
        str_views(r@) == archive_listing(*a),
{
    a.file_names().map(|n| n.to_string()).collect()
}

/// Relies on zip::ZipArchive::by_name and zip::read::ZipFile::is_file: whether
/// the named entry is a plain file, neither a directory nor a symbolic link.
/// A lookup moves only the reader's position: the listing and the entries are
/// unchanged.
#[verifier::external_body]
pub(crate) fn entry_is_file(
    a: &mut zip::ZipArchive<std::io::Cursor<Vec<u8>>>,
    name: &String,
) -> (r: Result<bool, zip::result::ZipError>)
    ensures
        archive_listing(*final(a)) == archive_listing(*old(a)),
        forall|n: Seq<char>| #[trigger] archive_is_file(*final(a), n) == archive_is_file(*old(a), n),
        forall|n: Seq<char>| #[trigger] archive_data(*final(a), n) == archive_data(*old(a), n),
        r is Ok <==> archive_is_file(*old(a), name@) is Some,
        (r matches Ok(b) ==> archive_is_file(*old(a), name@) == Some(b)),
{
    Ok(a.by_name(name)?.is_file())
}

/// Relies on zip::ZipArchive::by_name and std::io::Read::read_to_end: the
/// named entry's whole uncompressed content.  A read moves only the reader's
/// position: the listing and the entries are unchanged.
#[verifier::external_body]
pub(crate) fn read_entry(
    a: &mut zip::ZipArchive<std::io::Cursor<Vec<u8>>>,
    name: &String,
) -> (r: Result<Vec<u8>, zip::result::ZipError>)
    ensures
        archive_listing(*final(a)) == archive_listing(*old(a)),
        forall|n: Seq<char>| #[trigger] archive_is_file(*final(a), n) == archive_is_file(*old(a), n),
        forall|n: Seq<char>| #[trigger] archive_data(*final(a), n) == archive_data(*old(a), n),
        r is Ok <==> archive_data(*old(a), name@) is Some,
        (r matches Ok(d) ==> archive_data(*old(a), name@) == Some(d@)),
{
    let mut f = a.by_name(name)?;
    let mut buf = Vec::new();
    f.read_to_end(&mut buf)?;
    Ok(buf)
}

/// Relies on the Display implementation of zip::result::ZipError for the
/// message that is surfaced to the user.
#[verifier::external_body]
pub(crate) fn zip_error_text(e: &zip::result::ZipError) -> String {
    format!("{}", e)
}

} // verus!
