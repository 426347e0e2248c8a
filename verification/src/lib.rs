//! Byte-exact parsing of Named Binary Tag documents and Anvil region files.
//!
//! A document is parsed into a flat, pre-ordered sequence of tags. Every tag
//! records its parent, its depth and the inclusive byte ranges of its id, name
//! and value inside the parsed buffer.
//!
//! - [`nbt`] holds the tags, the primitive reader (`nbt::fsm::parse`) and
//!   the driver that reads a document (`nbt::driver`). What the driver
//!   computes is stated by a state machine over mathematical values
//!   (`nbt::machine`); what holds of every document it reads is stated and
//!   proved in `nbt::laws`, `nbt::trace` and `nbt::slices`.
//! - [`region`] reads the chunks of a region file.
//! - [`inflate`] decompresses gzip and zlib streams.
//! - [`fmt`] writes the byte ranges and the bytes of a tag as text.

use vstd::hash_map::StringHashMap;
use vstd::prelude::*;

pub mod fmt;
pub mod inflate;
pub mod nbt;
pub mod region;

use crate::inflate::{gzip_decode, gzip_decoded};
use crate::nbt::driver::{document_of, DocumentView, NbtData};
use crate::nbt::laws::well_formed;
use crate::nbt::{NbtReadError, NbtTag};

verus! {

/// Why a file holds no document.
#[derive(Debug, Copy, Clone, Eq, PartialEq, Structural)]
pub enum NbtFileError {
    /// The contents are no gzip stream, or one that is cut short.
    Io,
    /// The tags could not be written out.
    JsonWriteFailure,
    /// The decompressed contents are no document.
    Nbt(NbtReadError),
}

/// A stand-alone document: the path it was read from and what was read.
pub struct NbtFile {
    /// The path of the file.
    pub file_path: String,
    /// The document that the file holds.
    pub nbtdata: NbtData,
}

/// What the gzip-compressed `contents` of a file hold: `Io` where they do
/// not decompress, else the document in the decompressed bytes.
pub open spec fn file_document_of(contents: Seq<u8>) -> Result<DocumentView, NbtFileError> {
    match gzip_decoded(contents) {
        None => Err(NbtFileError::Io),
        Some(bytes) => match document_of(bytes) {
            Err(e) => Err(NbtFileError::Nbt(e)),
            Ok(parsed) => Ok(DocumentView { tags: parsed.tags, bytes, names: parsed.names }),
        },
    }
}

impl Default for NbtFile {
    fn default() -> (file: NbtFile)
        ensures
            file.file_path@ == Seq::<char>::empty(),
            file.nbtdata.is_unparsed(),
            file.nbtdata.raw_bytes@ == Seq::<u8>::empty(),
    {
        NbtFile::new()
    }
}

impl NbtFile {
    /// A file without a path, of which nothing has been read.
    pub fn new() -> (file: NbtFile)
        ensures
            file.file_path@ == Seq::<char>::empty(),
            file.nbtdata.is_unparsed(),
            file.nbtdata.raw_bytes@ == Seq::<u8>::empty(),
    {
        NbtFile { file_path: String::new(), nbtdata: NbtData::new(Vec::new()) }
    }

    /// Reads the document in `contents`, the gzip-compressed contents of the
    /// file at `file_path`.
    pub fn read(file_path: String, contents: &[u8]) -> (file: Result<NbtFile, NbtFileError>)
        ensures
            match file_document_of(contents@) {
                Ok(document) => file is Ok && file->Ok_0.nbtdata@ == document
                    && file->Ok_0.file_path == file_path && well_formed(
                    document.bytes,
                    document.tags,
                    document.names,
                ),
                Err(e) => file is Err && file->Err_0 == e,
            },
    {
        let buffer = match gzip_decode(contents) {
            Some(buffer) => buffer,
            None => return Err(NbtFileError::Io),
        };
        match NbtData::from_buf(buffer) {
            Ok(nbtdata) => Ok(NbtFile { file_path, nbtdata }),
            Err(e) => Err(NbtFileError::Nbt(e)),
        }
    }

    pub fn file_path(&self) -> (path: &str)
        ensures
            path@ == self.file_path@,
    {
        self.file_path.as_str()
    }

    pub fn nbt_tags(&self) -> (tags: &Vec<NbtTag>)
        ensures
            *tags == self.nbtdata.tags,
    {
        self.nbtdata.nbt_tags()
    }

    pub fn as_raw_bytes(&self) -> (bytes: &Vec<u8>)
        ensures
            *bytes == self.nbtdata.raw_bytes,
    {
        self.nbtdata.raw_bytes()
    }

    pub fn nbt_hashmap(&self) -> (names: &StringHashMap<usize>)
        ensures
            *names == self.nbtdata.tags_map,
    {
        self.nbtdata.tags_map()
    }
}

} // verus!
