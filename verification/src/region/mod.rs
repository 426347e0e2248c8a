//! The Anvil region decoder: the table of chunk locations at the head of a
//! region file, the framing of each chunk, and the document that each chunk
//! holds.

use vstd::prelude::*;

use crate::inflate::{gzip_decode, gzip_decoded, zlib_decode, zlib_decoded};
use crate::nbt::driver::{document_of, DocumentView, NbtData};
use crate::nbt::fsm::parse::{be_i32, read_be_i32};
use crate::nbt::laws::well_formed;
use crate::nbt::NbtReadError;
use crate::NbtFileError;

verus! {

/// The length of the table of locations, in bytes.
pub const HEADER_LENGTH: usize = 4096;

/// The number of chunks that a region file has room for.
pub const CHUNK_COUNT: usize = 1024;

/// The length of a sector, in bytes.
pub const SECTOR_LENGTH: usize = 4096;

/// The length of the framing header of a chunk: the declared length, then
/// the compression scheme.
pub const CHUNK_HEADER_LENGTH: usize = 5;

/// Why a buffer is no region file.
#[derive(Debug, Copy, Clone, Eq, PartialEq, Structural)]
pub enum RegionFileError {
    /// The file could not be read as a stand-alone document.
    NbtFileError(NbtFileError),
    /// The chunks could not be written out.
    JsonWriteFailure,
    /// The table of locations is cut short.
    HeaderLengthError,
    /// The framing header of a chunk is cut short, or declares a payload
    /// that the sectors of the chunk do not hold.
    InvalidChunkHeaderLenght,
    /// The compression scheme of a chunk is unknown, or the payload does not
    /// decompress.
    UnsupportedCompressionType,
    /// The chunk of this index holds no document.
    ChunkNbtError(usize, NbtReadError),
}

/// How the payload of a chunk is compressed.
#[derive(Debug, Copy, Clone, Eq, PartialEq, Structural)]
pub enum CompressionType {
    Uncompressed,
    Gzip,
    Zlib,
}

/// The scheme that a scheme byte names, if it names one.
pub open spec fn compression_of(value: u8) -> Option<CompressionType> {
    if value == 0 {
        Some(CompressionType::Uncompressed)
    } else if value == 1 {
        Some(CompressionType::Gzip)
    } else if value == 2 {
        Some(CompressionType::Zlib)
    } else {
        None
    }
}

impl CompressionType {
    pub fn from_u8(value: u8) -> (scheme: Option<CompressionType>)
        ensures
            scheme == compression_of(value),
    {
        match value {
            0 => Some(CompressionType::Uncompressed),
            1 => Some(CompressionType::Gzip),
            2 => Some(CompressionType::Zlib),
            _ => None,
        }
    }

    pub fn to_u8(self) -> (value: u8)
        ensures
            compression_of(value) == Some(self),
    {
        match self {
            CompressionType::Uncompressed => 0,
            CompressionType::Gzip => 1,
            CompressionType::Zlib => 2,
        }
    }
}

/// One entry of the table of locations, and the document of the chunk once
/// it is read: the first sector of the chunk, the number of its sectors, and
/// its tags.
pub struct Chunk {
    /// The first sector of the chunk; 0 where the chunk is absent.
    pub offset: u32,
    /// The number of sectors of the chunk; 0 where the chunk is absent.
    pub size: u32,
    /// The document of the chunk, once it is read.
    pub data: NbtData,
}

impl Chunk {
    /// Whether the chunk is present in the file: whether it has a first
    /// sector and a number of sectors.
    pub open spec fn is_present(&self) -> bool {
        self.offset > 0 && self.size > 0
    }

    /// An entry for a chunk that is absent.
    pub fn new() -> (chunk: Chunk)
        ensures
            chunk.offset == 0,
            chunk.size == 0,
            chunk.data.is_unparsed(),
            chunk.data.raw_bytes@ == Seq::<u8>::empty(),
    {
        Chunk { offset: 0, size: 0, data: NbtData::new(Vec::new()) }
    }

    pub fn offset(&self) -> (offset: u32)
        ensures
            offset == self.offset,
    {
        self.offset
    }

    pub fn size(&self) -> (size: u32)
        ensures
            size == self.size,
    {
        self.size
    }

    pub fn data(&self) -> (data: &NbtData)
        ensures
            *data == self.data,
    {
        &self.data
    }

    pub fn set_offset(&mut self, offset: u32)
        ensures
            final(self).offset == offset,
            final(self).size == old(self).size,
            final(self).data == old(self).data,
    {
        self.offset = offset;
    }

    pub fn set_data(&mut self, data: NbtData)
        ensures
            final(self).offset == old(self).offset,
            final(self).size == old(self).size,
            final(self).data == data,
    {
        self.data = data;
    }
}

/// The first sector that entry `index` of the table of locations names: the
/// first three bytes of the entry, most significant first.
pub open spec fn entry_offset(header: Seq<u8>, index: int) -> int {
    header[4 * index] as int * 0x1_0000 + header[4 * index + 1] as int * 0x100 + header[4 * index
        + 2] as int
}

/// The number of sectors that entry `index` of the table of locations names:
/// the last byte of the entry.
pub open spec fn entry_size(header: Seq<u8>, index: int) -> int {
    header[4 * index + 3] as int
}

/// The bytes of the sectors of a chunk, as far as the buffer holds them.
pub open spec fn chunk_sectors(buffer: Seq<u8>, offset: int, size: int) -> Seq<u8> {
    let start = offset * 4096;
    let end = start + size * 4096;
    if start >= buffer.len() {
        Seq::empty()
    } else if end >= buffer.len() {
        buffer.subrange(start, buffer.len() as int)
    } else {
        buffer.subrange(start, end)
    }
}

/// The scheme byte and the compressed payload that the sectors `raw` of a
/// chunk frame: a length `n` in four bytes, the scheme byte, and `n - 1`
/// bytes of payload.
pub open spec fn framed_payload(raw: Seq<u8>) -> Result<(u8, Seq<u8>), RegionFileError> {
    if raw.len() < 5 {
        Err(RegionFileError::InvalidChunkHeaderLenght)
    } else if be_i32(raw, 0) < 1 || 4 + be_i32(raw, 0) > raw.len() {
        Err(RegionFileError::InvalidChunkHeaderLenght)
    } else {
        Ok((raw[4], raw.subrange(5, 4 + be_i32(raw, 0))))
    }
}

/// The bytes that a payload compressed by the scheme of byte `scheme`
/// stands for.
pub open spec fn unzipped(payload: Seq<u8>, scheme: u8) -> Result<Seq<u8>, RegionFileError> {
    match compression_of(scheme) {
        Some(CompressionType::Gzip) => match gzip_decoded(payload) {
            Some(bytes) => Ok(bytes),
            None => Err(RegionFileError::UnsupportedCompressionType),
        },
        Some(CompressionType::Zlib) => match zlib_decoded(payload) {
            Some(bytes) => Ok(bytes),
            None => Err(RegionFileError::UnsupportedCompressionType),
        },
        Some(CompressionType::Uncompressed) => Ok(payload),
        None => Err(RegionFileError::UnsupportedCompressionType),
    }
}

/// The decompressed bytes of the chunk whose sectors are `raw`.
pub open spec fn decoded_chunk(raw: Seq<u8>) -> Result<Seq<u8>, RegionFileError> {
    match framed_payload(raw) {
        Err(e) => Err(e),
        Ok((scheme, payload)) => unzipped(payload, scheme),
    }
}

/// The document of chunk `index`, which lies in `size` sectors of `buffer`
/// from sector `offset` on.
pub open spec fn chunk_document(buffer: Seq<u8>, index: int, offset: int, size: int) -> Result<
    DocumentView,
    RegionFileError,
> {
    match decoded_chunk(chunk_sectors(buffer, offset, size)) {
        Err(e) => Err(e),
        Ok(bytes) => match document_of(bytes) {
            Err(e) => Err(RegionFileError::ChunkNbtError(index as usize, e)),
            Ok(parsed) => Ok(DocumentView { tags: parsed.tags, bytes, names: parsed.names }),
        },
    }
}

/// A region file: the path it was read from and its chunks.
pub struct RegionFile {
    /// The path of the file.
    pub file_path: String,
    /// The number of chunks counted; none is counted on reading.
    pub num_chunks: u32,
    /// The chunks, in the order of the table of locations.
    pub chunks: Vec<Chunk>,
}

/// Chunk `index` is as the table of locations at the head of `buffer` names
/// it.
pub open spec fn located_at(buffer: Seq<u8>, chunks: Seq<Chunk>, index: int) -> bool {
    chunks[index].offset == entry_offset(buffer, index) && chunks[index].size == entry_size(
        buffer,
        index,
    )
}

/// Chunk `index` holds the document that `buffer` holds for it, where it is
/// present, and is as it was, where it is absent.
pub open spec fn filled_at(
    buffer: Seq<u8>,
    before: Seq<Chunk>,
    after: Seq<Chunk>,
    index: int,
) -> bool {
    let chunk = before[index];
    &&& after[index].offset == chunk.offset
    &&& after[index].size == chunk.size
    &&& if chunk.is_present() {
        let document = chunk_document(buffer, index, chunk.offset as int, chunk.size as int);
        document is Ok && after[index].data@ == document->Ok_0 && well_formed(
            document->Ok_0.bytes,
            document->Ok_0.tags,
            document->Ok_0.names,
        )
    } else {
        after[index].data == chunk.data
    }
}

/// The reading stopped at chunk `index`: the chunks before it hold their
/// documents, and that chunk and those behind it are as they were.
pub open spec fn stopped_at(
    buffer: Seq<u8>,
    before: Seq<Chunk>,
    after: Seq<Chunk>,
    index: int,
) -> bool {
    &&& forall|j: int|
        0 <= j < index ==> #[trigger] filled_at(buffer, before, after, j) && !fails_at(
            buffer,
            before,
            j,
        )
    &&& forall|j: int| index <= j < before.len() ==> #[trigger] after[j] == before[j]
}

/// Whether chunk `index` is present and holds no document.
pub open spec fn fails_at(buffer: Seq<u8>, chunks: Seq<Chunk>, index: int) -> bool {
    chunks[index].is_present() && chunk_document(
        buffer,
        index,
        chunks[index].offset as int,
        chunks[index].size as int,
    ) is Err
}

impl RegionFile {
    /// A region file of which nothing has been read: one absent chunk, of
    /// which nothing has been read either.
    pub fn new(file_path: String) -> (region: RegionFile)
        ensures
            region.file_path == file_path,
            region.num_chunks == 0,
            region.chunks@.len() == 1,
            region.chunks@[0].offset == 0,
            region.chunks@[0].size == 0,
            region.chunks@[0].data.is_unparsed(),
            region.chunks@[0].data.raw_bytes@ == Seq::<u8>::empty(),
    {
        let mut chunks: Vec<Chunk> = Vec::new();
        chunks.push(Chunk::new());
        RegionFile { file_path, num_chunks: 0, chunks }
    }

    pub fn chunks(&self) -> (chunks: &Vec<Chunk>)
        ensures
            *chunks == self.chunks,
    {
        &self.chunks
    }

    pub fn num_chunks(&self) -> (count: u32)
        ensures
            count == self.num_chunks,
    {
        self.num_chunks
    }

    pub fn file_path(&self) -> (path: &str)
        ensures
            path@ == self.file_path@,
    {
        self.file_path.as_str()
    }

    /// Reads the region file whose contents are `buffer`: the table of
    /// locations, then the document of every chunk that is present, in the
    /// order of the table. The first chunk that fails ends the reading.
    pub fn read(file_path: String, buffer: &[u8]) -> (region: Result<RegionFile, RegionFileError>)
        ensures
            buffer@.len() < 4096 ==> region == Err::<RegionFile, RegionFileError>(
                RegionFileError::HeaderLengthError,
            ),
            region is Ok ==> {
                &&& region->Ok_0.file_path == file_path
                &&& region->Ok_0.num_chunks == 0
                &&& region->Ok_0.chunks@.len() == 1024
                &&& forall|i: int|
                    0 <= i < 1024 ==> {
                        let chunk = #[trigger] region->Ok_0.chunks@[i];
                        &&& chunk.offset == entry_offset(buffer@, i)
                        &&& chunk.size == entry_size(buffer@, i)
                        &&& chunk.is_present() ==> {
                            let document = chunk_document(
                                buffer@,
                                i,
                                chunk.offset as int,
                                chunk.size as int,
                            );
                            document is Ok && chunk.data@ == document->Ok_0 && well_formed(
                                document->Ok_0.bytes,
                                document->Ok_0.tags,
                                document->Ok_0.names,
                            )
                        }
                        &&& !chunk.is_present() ==> chunk.data.is_unparsed()
                            && chunk.data.raw_bytes@ == Seq::<u8>::empty()
                    }
            },
            region is Err && buffer@.len() >= 4096 ==> exists|i: int|
                0 <= i < 1024 && entry_offset(buffer@, i) > 0 && entry_size(buffer@, i) > 0
                    && #[trigger] chunk_document(
                    buffer@,
                    i,
                    entry_offset(buffer@, i),
                    entry_size(buffer@, i),
                ) == Err::<DocumentView, RegionFileError>(region->Err_0) && forall|j: int|
                    0 <= j < i && entry_offset(buffer@, j) > 0 && entry_size(buffer@, j) > 0
                        ==> (#[trigger] chunk_document(
                        buffer@,
                        j,
                        entry_offset(buffer@, j),
                        entry_size(buffer@, j),
                    )) is Ok,
    {
        let mut region_chunks = Self::read_header(buffer)?;
        let ghost located = region_chunks@;
        match Self::read_chunks(buffer, &mut region_chunks) {
            Ok(()) => {
                proof {
                    assert forall|i: int| 0 <= i < 1024 implies {
                        let chunk = #[trigger] region_chunks@[i];
                        &&& chunk.offset == entry_offset(buffer@, i)
                        &&& chunk.size == entry_size(buffer@, i)
                        &&& chunk.is_present() ==> {
                            let document = chunk_document(
                                buffer@,
                                i,
                                chunk.offset as int,
                                chunk.size as int,
                            );
                            document is Ok && chunk.data@ == document->Ok_0 && well_formed(
                                document->Ok_0.bytes,
                                document->Ok_0.tags,
                                document->Ok_0.names,
                            )
                        }
                        &&& !chunk.is_present() ==> chunk.data.is_unparsed()
                            && chunk.data.raw_bytes@ == Seq::<u8>::empty()
                    } by {
                        assert(filled_at(buffer@, located, region_chunks@, i));
                        assert(located_at(buffer@, located, i));
                    }
                }
                Ok(RegionFile { file_path, num_chunks: 0, chunks: region_chunks })
            },
            Err(e) => {
                proof {
                    let failed = choose|i: int|
                        0 <= i < located.len() && #[trigger] fails_at(buffer@, located, i)
                            && chunk_document(
                            buffer@,
                            i,
                            located[i].offset as int,
                            located[i].size as int,
                        ) == Err::<DocumentView, RegionFileError>(e) && stopped_at(
                            buffer@,
                            located,
                            region_chunks@,
                            i,
                        );
                    assert(located_at(buffer@, located, failed));
                    assert forall|j: int|
                        0 <= j < failed && entry_offset(buffer@, j) > 0 && entry_size(buffer@, j)
                            > 0 implies (#[trigger] chunk_document(
                        buffer@,
                        j,
                        entry_offset(buffer@, j),
                        entry_size(buffer@, j),
                    )) is Ok by {
                        assert(located_at(buffer@, located, j));
                        assert(filled_at(buffer@, located, region_chunks@, j));
                    }
                }
                Err(e)
            },
        }
    }

    /// Reads the document of every chunk that is present, in their order.
    /// The first chunk that fails ends the reading: the chunks before it
    /// hold their documents, and its error is returned.
    pub fn read_chunks(buffer: &[u8], chunks: &mut Vec<Chunk>) -> (outcome: Result<
        (),
        RegionFileError,
    >)
        ensures
            final(chunks)@.len() == old(chunks)@.len(),
            match outcome {
                Ok(()) => forall|i: int|
                    0 <= i < old(chunks)@.len() ==> #[trigger] filled_at(
                        buffer@,
                        old(chunks)@,
                        final(chunks)@,
                        i,
                    ),
                Err(e) => exists|i: int|
                    0 <= i < old(chunks)@.len() && #[trigger] fails_at(buffer@, old(chunks)@, i)
                        && chunk_document(
                        buffer@,
                        i,
                        old(chunks)@[i].offset as int,
                        old(chunks)@[i].size as int,
                    ) == Err::<DocumentView, RegionFileError>(e) && stopped_at(
                        buffer@,
                        old(chunks)@,
                        final(chunks)@,
                        i,
                    ),
            },
    {
        let count = chunks.len();
        let mut chunk_index: usize = 0;
        while chunk_index < count
            invariant
                chunk_index <= count,
                chunks@.len() == count,
                count == old(chunks)@.len(),
                forall|i: int|
                    0 <= i < chunk_index ==> #[trigger] filled_at(
                        buffer@,
                        old(chunks)@,
                        chunks@,
                        i,
                    ),
                forall|i: int| chunk_index <= i < count ==> chunks@[i] == old(chunks)@[i],
            decreases count - chunk_index,
        {
            let ghost current = chunks@;
            let offset = chunks[chunk_index].offset();
            let size = chunks[chunk_index].size();
            if offset > 0 && size > 0 {
                let chunk_raw_bytes = Self::chunk_slice(buffer, offset, size);
                let chunk_uncompressed_raw_bytes = match Self::decode_chunk(chunk_raw_bytes) {
                    Ok(bytes) => bytes,
                    Err(e) => {
                        proof {
                            assert(fails_at(buffer@, old(chunks)@, chunk_index as int));
                            assert(stopped_at(
                                buffer@,
                                old(chunks)@,
                                chunks@,
                                chunk_index as int,
                            ));
                        }
                        return Err(e);
                    },
                };
                match NbtData::from_buf(chunk_uncompressed_raw_bytes) {
                    Ok(nbt_data) => {
                        chunks[chunk_index].set_data(nbt_data);
                    },
                    Err(e) => {
                        proof {
                            assert(fails_at(buffer@, old(chunks)@, chunk_index as int));
                            assert(stopped_at(
                                buffer@,
                                old(chunks)@,
                                chunks@,
                                chunk_index as int,
                            ));
                        }
                        return Err(RegionFileError::ChunkNbtError(chunk_index, e));
                    },
                }
            }
            proof {
                assert forall|i: int| 0 <= i < chunk_index + 1 implies #[trigger] filled_at(
                    buffer@,
                    old(chunks)@,
                    chunks@,
                    i,
                ) by {
                    if i < chunk_index {
                        assert(filled_at(buffer@, old(chunks)@, current, i));
                        assert(chunks@[i] == current[i]);
                    }
                }
            }
            chunk_index = chunk_index + 1;
        }
        Ok(())
    }

    /// The sectors of a chunk, as far as the buffer holds them.
    fn chunk_slice(buffer: &[u8], offset: u32, size: u32) -> (sectors: &[u8])
        ensures
            sectors@ == chunk_sectors(buffer@, offset as int, size as int),
    {
        let total = buffer.len() as u64;
        let start = offset as u64 * 4096;
        let end = start + size as u64 * 4096;
        if start >= total {
            vstd::slice::slice_subrange(buffer, 0, 0)
        } else if end >= total {
            vstd::slice::slice_subrange(buffer, start as usize, buffer.len())
        } else {
            vstd::slice::slice_subrange(buffer, start as usize, end as usize)
        }
    }

    /// Takes the framing off the sectors of a chunk and decompresses its
    /// payload.
    pub fn decode_chunk(chunk_raw_bytes: &[u8]) -> (bytes: Result<Vec<u8>, RegionFileError>)
        ensures
            match decoded_chunk(chunk_raw_bytes@) {
                Ok(decoded) => bytes is Ok && bytes->Ok_0@ == decoded,
                Err(e) => bytes is Err && bytes->Err_0 == e,
            },
    {
        if chunk_raw_bytes.len() < CHUNK_HEADER_LENGTH {
            return Err(RegionFileError::InvalidChunkHeaderLenght);
        }
        let chunk_length = read_be_i32(chunk_raw_bytes, 0);
        if chunk_length < 1 || chunk_raw_bytes.len() - 4 < chunk_length as usize {
            return Err(RegionFileError::InvalidChunkHeaderLenght);
        }
        let chunk_compression_method = chunk_raw_bytes[4];
        let compressed_chunk_payload = vstd::slice::slice_subrange(
            chunk_raw_bytes,
            CHUNK_HEADER_LENGTH,
            4 + chunk_length as usize,
        );
        Self::unzip_chunk(compressed_chunk_payload, chunk_compression_method)
    }

    /// Decompresses the payload of a chunk by the scheme that
    /// `chunk_compression_method` names.
    pub fn unzip_chunk(chunk_payload: &[u8], chunk_compression_method: u8) -> (bytes: Result<
        Vec<u8>,
        RegionFileError,
    >)
        ensures
            match unzipped(chunk_payload@, chunk_compression_method) {
                Ok(decoded) => bytes is Ok && bytes->Ok_0@ == decoded,
                Err(e) => bytes is Err && bytes->Err_0 == e,
            },
    {
        match CompressionType::from_u8(chunk_compression_method) {
            Some(CompressionType::Gzip) => match gzip_decode(chunk_payload) {
                Some(bytes) => Ok(bytes),
                None => Err(RegionFileError::UnsupportedCompressionType),
            },
            Some(CompressionType::Zlib) => match zlib_decode(chunk_payload) {
                Some(bytes) => Ok(bytes),
                None => Err(RegionFileError::UnsupportedCompressionType),
            },
            Some(CompressionType::Uncompressed) => Ok(slice_to_vec(chunk_payload)),
            None => Err(RegionFileError::UnsupportedCompressionType),
        }
    }

    /// Reads the table of locations at the head of a region file: one entry
    /// for each of the 1024 chunks.
    pub fn read_header(region_content: &[u8]) -> (chunks: Result<Vec<Chunk>, RegionFileError>)
        ensures
            region_content@.len() < 4096 ==> chunks == Err::<Vec<Chunk>, RegionFileError>(
                RegionFileError::HeaderLengthError,
            ),
            region_content@.len() >= 4096 ==> {
                &&& chunks is Ok
                &&& chunks->Ok_0@.len() == 1024
                &&& forall|i: int|
                    0 <= i < 1024 ==> #[trigger] located_at(region_content@, chunks->Ok_0@, i)
                        && chunks->Ok_0@[i].data.is_unparsed()
                        && chunks->Ok_0@[i].data.raw_bytes@ == Seq::<u8>::empty()
            },
    {
        if region_content.len() < HEADER_LENGTH {
            return Err(RegionFileError::HeaderLengthError);
        }
        let mut chunks: Vec<Chunk> = Vec::with_capacity(CHUNK_COUNT);
        let mut index: usize = 0;
        while index < CHUNK_COUNT
            invariant
                index <= 1024,
                region_content@.len() >= 4096,
                chunks@.len() == index,
                forall|i: int|
                    0 <= i < index ==> #[trigger] located_at(region_content@, chunks@, i)
                        && chunks@[i].data.is_unparsed() && chunks@[i].data.raw_bytes@
                        == Seq::<u8>::empty(),
            decreases 1024 - index,
        {
            let ghost before = chunks@;
            let chunk = Self::parse_chunk_position_and_size(
                vstd::slice::slice_subrange(region_content, 4 * index, 4 * index + 4),
            );
            chunks.push(chunk);
            proof {
                assert forall|i: int| 0 <= i < index + 1 implies #[trigger] located_at(
                    region_content@,
                    chunks@,
                    i,
                ) && chunks@[i].data.is_unparsed() && chunks@[i].data.raw_bytes@
                    == Seq::<u8>::empty() by {
                    if i < index {
                        assert(located_at(region_content@, before, i));
                        assert(chunks@[i] == before[i]);
                    }
                }
            }
            index = index + 1;
        }
        Ok(chunks)
    }

    /// Reads one entry of the table of locations: the first sector in three
    /// bytes, most significant first, then the number of sectors in one.
    pub fn parse_chunk_position_and_size(chunk_info: &[u8]) -> (chunk: Chunk)
        requires
            chunk_info@.len() >= 4,
        ensures
            chunk.offset == entry_offset(chunk_info@, 0),
            chunk.size == entry_size(chunk_info@, 0),
            chunk.data.is_unparsed(),
            chunk.data.raw_bytes@ == Seq::<u8>::empty(),
    {
        let offset = chunk_info[0] as u32 * 0x1_0000 + chunk_info[1] as u32 * 0x100
            + chunk_info[2] as u32;
        let size = chunk_info[3] as u32;
        Chunk { offset, size, data: NbtData::new(Vec::new()) }
    }
}

/// A copy of the bytes of `bytes`.
fn slice_to_vec(bytes: &[u8]) -> (copy: Vec<u8>)
    ensures
        copy@ == bytes@,
{
    let mut copy: Vec<u8> = Vec::with_capacity(bytes.len());
    let mut i: usize = 0;
    while i < bytes.len()
        invariant
            i <= bytes@.len(),
            copy@ == bytes@.subrange(0, i as int),
        decreases bytes@.len() - i,
    {
        copy.push(bytes[i]);
        i = i + 1;
        assert(copy@ =~= bytes@.subrange(0, i as int));
    }
    assert(copy@ =~= bytes@);
    copy
}

} // verus!
