//! Trusted boundary around the archive container format.
//!
//! The engine stores its entries in a standard sequential-record
//! container through the `tar` crate, always over in-memory byte
//! buffers: building appends records to a growing buffer, reading
//! scans a finished buffer front to back. Each wrapper below performs
//! exactly one container operation and converts between the crate's
//! types and plain values; the contracts name what the operations
//! return, since spelling out the container's byte layout here would
//! restate the whole format.

use std::io::Read;
use vstd::prelude::*;

verus! {

/// A container builder over an in-memory buffer. The wrapped builder
/// type is generic over any writer, which Verus cannot declare, so the
/// whole struct is opaque and its state is captured by `builder_log`.
#[verifier::external_body]
pub struct ArchiveBuilder {
    inner: tar::Builder<Vec<u8>>,
}

/// The records appended to a builder so far, in order: entry name,
/// payload bytes, whether the entry is a directory, its mode and its
/// modification time.
pub uninterp spec fn builder_log(b: ArchiveBuilder) -> Seq<(Seq<char>, Seq<u8>, bool, u32, u64)>;

/// The container bytes that finishing a builder with the given record
/// log produces.
pub uninterp spec fn tar_encoding(log: Seq<(Seq<char>, Seq<u8>, bool, u32, u64)>) -> Seq<u8>;

/// Scanning container bytes front to back: whether the full listing
/// succeeds, and for each record its name, whether it is a directory
/// and whether it is a regular file.
pub uninterp spec fn tar_scan(bytes: Seq<u8>) -> (bool, Seq<(Seq<char>, bool, bool)>);

/// Reading the payload of the record at the given position of a
/// container: whether the read succeeds, and the bytes it yields.
pub uninterp spec fn tar_payload(bytes: Seq<u8>, index: int) -> (bool, Seq<u8>);

/// Relies on tar::Builder::new: a fresh builder over an empty buffer
/// holds no records.
#[verifier::external_body]
pub fn tar_builder_new() -> (b: ArchiveBuilder)
    ensures
        builder_log(b) == Seq::<(Seq<char>, Seq<u8>, bool, u32, u64)>::empty(),
{
    ArchiveBuilder { inner: tar::Builder::new(Vec::new()) }
}

/// Relies on tar::Builder::append_data: appends one record with the
/// given name, payload and header fields after the records already
/// written.
#[verifier::external_body]
pub fn tar_append(
    b: &mut ArchiveBuilder,
    name: &String,
    data: &Vec<u8>,
    is_dir: bool,
    mode: u32,
    mtime: u64,
) -> (r: Result<(), String>)
    ensures
        r is Ok ==> builder_log(*final(b)) == builder_log(*old(b)).push(
            (name@, data@, is_dir, mode, mtime),
        ),
{
    let mut h = tar::Header::new_gnu();
    h.set_size(data.len() as u64);
    h.set_mode(mode);
    h.set_mtime(mtime);
    h.set_entry_type(if is_dir { tar::EntryType::dir() } else { tar::EntryType::file() });
    b.inner.append_data(&mut h, name.as_str(), data.as_slice()).map_err(|e| e.to_string())
}

/// Relies on tar::Builder::into_inner: finishes the container and
/// returns the accumulated bytes, a function of the records written.
#[verifier::external_body]
pub fn tar_finish(b: ArchiveBuilder) -> (r: Result<Vec<u8>, String>)
    ensures
        r matches Ok(v) ==> v@ == tar_encoding(builder_log(b)),
{
    b.inner.into_inner().map_err(|e| e.to_string())
}

/// Relies on tar::Archive::entries: lists every record of the
/// container in order, converting each to its name (lossily decoded),
/// directory flag and regular-file flag.
#[verifier::external_body]
pub fn tar_list(bytes: &Vec<u8>) -> (r: Result<Vec<(String, bool, bool)>, String>)
    ensures
        (r is Ok) == tar_scan(bytes@).0,
        r matches Ok(v) ==> v.deep_view() == tar_scan(bytes@).1,
{
    let mut ar = tar::Archive::new(bytes.as_slice());
    let mut out: Vec<(String, bool, bool)> = Vec::new();
    for entry in ar.entries().map_err(|e| e.to_string())? {
        let entry = entry.map_err(|e| e.to_string())?;
        let name = String::from_utf8_lossy(&entry.path_bytes()).into_owned();
        let ty = entry.header().entry_type();
        out.push((name, ty.is_dir(), ty.is_file()));
    }
    Ok(out)
}

/// Relies on tar::Archive::entries and std::io::Read::read_to_end:
/// reads the payload bytes of the record at the given position.
#[verifier::external_body]
pub fn tar_entry_data(bytes: &Vec<u8>, index: usize) -> (r: Result<Vec<u8>, String>)
    ensures
        (r is Ok) == tar_payload(bytes@, index as int).0,
        r matches Ok(d) ==> d@ == tar_payload(bytes@, index as int).1,
{
    let mut ar = tar::Archive::new(bytes.as_slice());
    let mut it = ar.entries().map_err(|e| e.to_string())?;
    match it.nth(index) {
        Some(entry) => {
            let mut d: Vec<u8> = Vec::new();
            entry.map_err(|e| e.to_string())?.read_to_end(&mut d).map_err(|e| e.to_string())?;
            Ok(d)
        },
        None => Err("entry index out of range".to_string()),
    }
}

} // verus!
