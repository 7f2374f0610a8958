//! Errors. The library has one error type.

use vstd::prelude::*;

verus! {

/// Any failure of the library.
#[derive(Debug)]
pub enum Error {
    /// The storage below failed.
    Io(IoError),
    /// A stored value could not be read back.
    Serde(String),
    /// A collection of that name exists already.
    CollectionExists(String),
    /// There is no collection of that name.
    CollectionNotFound(String),
    /// A vector is not as long as the collection's configuration says.
    DimensionMismatch {
        /// The dimension of the collection.
        expected: usize,
        /// The length of the vector.
        got: usize,
    },
    /// The tail of the log is damaged.
    WalCorrupt {
        /// Where the damage starts.
        offset: u64,
        /// What is wrong there.
        reason: FrameFault,
    },
    /// Another process has the database directory open.
    AlreadyOpen(String),
    /// An argument or a stored value is not acceptable.
    Invalid(Invalid),
}

/// A failure of the storage.
#[derive(Debug, Clone, Copy, PartialEq, Eq, Structural)]
pub enum IoError {
    /// No such file or directory.
    NotFound,
    /// A read went past the end of the file.
    UnexpectedEof,
    /// There is no space left.
    StorageFull,
    /// Any other failure.
    Other,
}

/// What is wrong with a frame of the log.
#[derive(Debug)]
pub enum FrameFault {
    /// Fewer bytes are left than a frame's header takes.
    TruncatedHeader,
    /// The frame claims more bytes than any record may have.
    LengthOutOfRange(u32),
    /// Fewer bytes are left than the header announces.
    TruncatedBody,
    /// The checksum in the header is not that of the body.
    CrcMismatch,
    /// The body is not a record.
    BadBody(String),
}

/// What is wrong with an argument or a stored value.
#[derive(Debug)]
pub enum Invalid {
    /// The dimension of a collection is zero.
    ZeroDimension,
    /// The name of a collection is empty.
    EmptyName,
    /// A query asks for no results at all.
    ZeroTopK,
    /// A query has neither a vector nor an id, or both.
    VectorOrId,
    /// The id of a query belongs to no point.
    QueryIdNotFound,
    /// There is no metric of a name.
    UnknownMetric(String),
    /// A number is not an identifier, since it does not fit.
    IdRange,
    /// Something that is neither a number nor a text is not an identifier.
    IdType,
    /// A record does not fit into a frame of the log; its length.
    RecordTooLarge(usize),
    /// A manifest was written by a later version.
    ManifestVersion(u32),
    /// A log record speaks of a collection that does not exist.
    ReplayMissing {
        /// The name in the record.
        name: String,
        /// The number of the record.
        lsn: u64,
    },
    /// A flush met a collection that the manifest does not hold.
    FlushMissing(String),
    /// The name of a segment directory is not one of a segment.
    SegmentDirName,
    /// A segment directory and its description disagree on the segment's number.
    SegmentIdMismatch {
        /// The number in the name of the directory.
        dir: u64,
        /// The number in the description.
        meta: u64,
    },
    /// The file of vectors is not a whole number of components long.
    VectorsUnaligned,
    /// The file of vectors has the wrong number of components.
    VectorsSize {
        /// How many components it has.
        got: usize,
        /// How many rows the segment has.
        count: usize,
        /// The dimension of the segment.
        dim: usize,
    },
    /// The file of norms has the wrong number of rows.
    NormsSize,
    /// The files of ids and payloads do not have one line for each row.
    LinesCount,
    /// The file of tombstones is damaged.
    Tombstones,
    /// The files of a segment are not what any writer leaves behind; its number.
    SegmentDamaged(u64),
    /// The lines of a file are not text; why.
    NotText(String),
    /// All numbers of segments or of records are used up.
    NumbersUsedUp,
    /// A segment has too many rows for an index.
    SegmentTooLarge,
    /// The index file starts with the wrong number.
    IndexMagic(u32),
    /// The index file has another format version.
    IndexVersion(u32),
    /// The index file is for another number of rows.
    IndexCount {
        /// The number of rows in the index file.
        index: u32,
        /// The number of rows of the segment.
        segment: usize,
    },
    /// The index file ends too early.
    IndexTruncated,
    /// The index file holds links of a node or a layer that does not exist.
    IndexUpper,
    /// The index file goes on after its end; the number of bytes left.
    IndexTrailing(usize),
}

} // verus!
