//! The log. A write is first appended to the log and only then applied.
//!
//! The log is a sequence of frames. A frame is the length of its body, a checksum of its
//! body, both as little-endian integers, and the body: a record. What a crash leaves
//! behind the last whole frame is cut off when the log is opened.
//!
//! Records are numbered. Those up to the number that the manifest gives are in segments
//! already.

use vstd::prelude::*;

use crate::bytes::{
    law_le32_round_trip, law_le_bytes, le32, push_bytes, push_u32, u32_at,
};
use crate::collection::CollectionConfig;
use crate::error::{Error, FrameFault, Invalid};
use crate::id::{ExternalId, IdView};
use crate::json::{Json, JsonView};
use crate::segment::{payload_view, Entry, Point};
use crate::storage::{read_all, resized, same_start, StorageBackend};

verus! {

/// The most bytes that the body of a frame may have.
pub const MAX_FRAME: u32 = 268_435_456;

/// What a record says was done.
#[derive(Debug)]
pub enum Op {
    /// A collection was made.
    CreateCollection {
        /// The name.
        name: String,
        /// The configuration.
        config: CollectionConfig,
    },
    /// A collection was dropped.
    DropCollection {
        /// The name.
        name: String,
    },
    /// Points were written.
    Upsert {
        /// The name of the collection.
        collection: String,
        /// The points.
        points: Vec<Point>,
    },
    /// Points were deleted.
    Delete {
        /// The name of the collection.
        collection: String,
        /// The identifiers of the points.
        ids: Vec<ExternalId>,
    },
    /// Points were given a payload.
    SetPayload {
        /// The name of the collection.
        collection: String,
        /// The identifiers of the points.
        ids: Vec<ExternalId>,
        /// The payload.
        payload: Json,
    },
    /// The payloads of points were taken away.
    ClearPayload {
        /// The name of the collection.
        collection: String,
        /// The identifiers of the points.
        ids: Vec<ExternalId>,
    },
}

/// A record of the log.
#[derive(Debug)]
pub struct WalRecord {
    /// The number of the record.
    pub lsn: u64,
    /// What was done.
    pub op: Op,
}

/// What an operation is.
pub enum OpView {
    /// A collection was made.
    Create {
        /// The name.
        name: Seq<char>,
        /// The configuration.
        config: CollectionConfig,
    },
    /// A collection was dropped.
    Drop {
        /// The name.
        name: Seq<char>,
    },
    /// Points were written.
    Upsert {
        /// The name of the collection.
        name: Seq<char>,
        /// The points.
        points: Seq<(IdView, Entry)>,
    },
    /// Points were deleted.
    Delete {
        /// The name of the collection.
        name: Seq<char>,
        /// The identifiers of the points.
        ids: Seq<IdView>,
    },
    /// Points were given a payload, or none.
    Pay {
        /// The name of the collection.
        name: Seq<char>,
        /// The identifiers of the points.
        ids: Seq<IdView>,
        /// The payload.
        payload: Option<JsonView>,
    },
}

/// What a record is.
pub struct RecordView {
    /// The number of the record.
    pub lsn: u64,
    /// What was done.
    pub op: OpView,
}

/// What some points are.
pub open spec fn point_views(points: Seq<Point>) -> Seq<(IdView, Entry)> {
    Seq::new(points.len(), |i: int| (points[i].id@, points[i].entry()))
}

/// What some identifiers are.
pub open spec fn id_views(ids: Seq<ExternalId>) -> Seq<IdView> {
    Seq::new(ids.len(), |i: int| ids[i]@)
}

impl View for Op {
    type V = OpView;

    open spec fn view(&self) -> OpView {
        match *self {
            Op::CreateCollection { name, config } => OpView::Create { name: name@, config },
            Op::DropCollection { name } => OpView::Drop { name: name@ },
            Op::Upsert { collection, points } => OpView::Upsert {
                name: collection@,
                points: point_views(points@),
            },
            Op::Delete { collection, ids } => OpView::Delete {
                name: collection@,
                ids: id_views(ids@),
            },
            Op::SetPayload { collection, ids, payload } => OpView::Pay {
                name: collection@,
                ids: id_views(ids@),
                payload: Some(payload@),
            },
            Op::ClearPayload { collection, ids } => OpView::Pay {
                name: collection@,
                ids: id_views(ids@),
                payload: None,
            },
        }
    }
}

impl View for WalRecord {
    type V = RecordView;

    open spec fn view(&self) -> RecordView {
        RecordView { lsn: self.lsn, op: self.op@ }
    }
}

/// What some records are.
pub open spec fn record_views(records: Seq<WalRecord>) -> Seq<RecordView> {
    Seq::new(records.len(), |i: int| records[i]@)
}

/// A copy of some identifiers.
pub fn copy_ids(ids: &[ExternalId]) -> (r: Vec<ExternalId>)
    ensures
        id_views(r@) == id_views(ids@),
{
    let mut r: Vec<ExternalId> = Vec::new();
    let mut i: usize = 0;
    while i < ids.len()
        invariant
            i <= ids@.len(),
            id_views(r@) == id_views(ids@).take(i as int),
        decreases ids.len() - i,
    {
        let ghost before = id_views(r@);
        r.push(ids[i].clone());
        assert(id_views(r@) =~= before.push(ids@[i as int]@));
        assert(id_views(ids@).take(i + 1) =~= id_views(ids@).take(i as int).push(ids@[i as int]@));
        i = i + 1;
    }
    assert(id_views(ids@).take(ids@.len() as int) =~= id_views(ids@));
    r
}

/// A copy of some points.
pub fn copy_points(points: &[Point]) -> (r: Vec<Point>)
    ensures
        point_views(r@) == point_views(points@),
{
    let mut r: Vec<Point> = Vec::new();
    let mut i: usize = 0;
    while i < points.len()
        invariant
            i <= points@.len(),
            point_views(r@) == point_views(points@).take(i as int),
        decreases points.len() - i,
    {
        let ghost before = point_views(r@);
        let ghost p = (points@[i as int].id@, points@[i as int].entry());
        r.push(points[i].clone());
        assert(point_views(r@) =~= before.push(p));
        assert(point_views(points@).take(i + 1) =~= point_views(points@).take(i as int).push(p));
        i = i + 1;
    }
    assert(point_views(points@).take(points@.len() as int) =~= point_views(points@));
    r
}

impl Clone for Op {
    fn clone(&self) -> (r: Self)
        ensures
            r@ == self@,
    {
        match self {
            Op::CreateCollection { name, config } => Op::CreateCollection {
                name: name.clone(),
                config: *config,
            },
            Op::DropCollection { name } => Op::DropCollection { name: name.clone() },
            Op::Upsert { collection, points } => Op::Upsert {
                collection: collection.clone(),
                points: copy_points(points.as_slice()),
            },
            Op::Delete { collection, ids } => Op::Delete {
                collection: collection.clone(),
                ids: copy_ids(ids.as_slice()),
            },
            Op::SetPayload { collection, ids, payload } => Op::SetPayload {
                collection: collection.clone(),
                ids: copy_ids(ids.as_slice()),
                payload: payload.clone(),
            },
            Op::ClearPayload { collection, ids } => Op::ClearPayload {
                collection: collection.clone(),
                ids: copy_ids(ids.as_slice()),
            },
        }
    }
}

/// How records are turned into the bodies of frames, and back. `encode` gives the bytes of
/// a record, `decode` the record of some bytes; either may fail with a message.
pub struct Codec<E, D> {
    /// The bytes of a record.
    pub encode: E,
    /// The record of some bytes.
    pub decode: D,
}

/// What encoding gave.
pub open spec fn encoded_view(r: Result<Vec<u8>, String>) -> Result<Seq<u8>, Seq<char>> {
    match r {
        Ok(b) => Ok(b@),
        Err(e) => Err(e@),
    }
}

/// What decoding gave.
pub open spec fn decoded_view(r: Result<WalRecord, String>) -> Result<RecordView, Seq<char>> {
    match r {
        Ok(rec) => Ok(rec@),
        Err(e) => Err(e@),
    }
}

impl<E, D> Codec<E, D> where
    E: Fn(&WalRecord) -> Result<Vec<u8>, String>,
    D: Fn(&[u8]) -> Result<WalRecord, String>,
 {
    /// Both functions can be called on anything, and give the same result on the same
    /// value.
    pub open spec fn valid(&self) -> bool {
        &&& forall|rec: &WalRecord| #[trigger] call_requires(self.encode, (rec,))
        &&& forall|b: &[u8]| #[trigger] call_requires(self.decode, (b,))
        &&& forall|a: &WalRecord, b: &WalRecord, x: Result<Vec<u8>, String>, y: Result<
            Vec<u8>,
            String,
        >|
            a@ == b@ && #[trigger] call_ensures(self.encode, (a,), x) && #[trigger] call_ensures(
                self.encode,
                (b,),
                y,
            ) ==> encoded_view(x) == encoded_view(y)
        &&& forall|a: &[u8], b: &[u8], x: Result<WalRecord, String>, y: Result<WalRecord, String>|
            a@ == b@ && #[trigger] call_ensures(self.decode, (a,), x) && #[trigger] call_ensures(
                self.decode,
                (b,),
                y,
            ) ==> decoded_view(x) == decoded_view(y)
    }

    /// Whether `encode` may give `x` for a record.
    pub open spec fn may_encode(&self, rec: RecordView, x: Result<Seq<u8>, Seq<char>>) -> bool {
        exists|a: &WalRecord, y: Result<Vec<u8>, String>|
            a@ == rec && encoded_view(y) == x && #[trigger] call_ensures(self.encode, (a,), y)
    }

    /// Whether `decode` may give `x` for some bytes.
    pub open spec fn may_decode(&self, b: Seq<u8>, x: Result<RecordView, Seq<char>>) -> bool {
        exists|a: &[u8], y: Result<WalRecord, String>|
            a@ == b && decoded_view(y) == x && #[trigger] call_ensures(self.decode, (a,), y)
    }

    /// The bytes of a record.
    pub open spec fn encoded(&self, rec: RecordView) -> Result<Seq<u8>, Seq<char>> {
        choose|x: Result<Seq<u8>, Seq<char>>| self.may_encode(rec, x)
    }

    /// The record of some bytes.
    pub open spec fn decoded(&self, b: Seq<u8>) -> Result<RecordView, Seq<char>> {
        choose|x: Result<RecordView, Seq<char>>| self.may_decode(b, x)
    }

    /// The bytes of a record.
    pub fn encode(&self, rec: &WalRecord) -> (r: Result<Vec<u8>, String>)
        requires
            self.valid(),
        ensures
            encoded_view(r) == self.encoded(rec@),
    {
        let r = (self.encode)(rec);
        assert(self.may_encode(rec@, encoded_view(r)));
        r
    }

    /// The record of some bytes.
    pub fn decode(&self, b: &[u8]) -> (r: Result<WalRecord, String>)
        requires
            self.valid(),
        ensures
            decoded_view(r) == self.decoded(b@),
    {
        let r = (self.decode)(b);
        assert(self.may_decode(b@, decoded_view(r)));
        r
    }
}

/// The remainder once one more bit is shifted out, least significant bit first, with the
/// polynomial of IEEE 802.3.
pub open spec fn crc_bit(c: u32) -> u32 {
    if c % 2 == 1 {
        (c >> 1) ^ 0xEDB8_8320
    } else {
        c >> 1
    }
}

/// The remainder once some bits are shifted out.
pub open spec fn crc_bits(c: u32, n: nat) -> u32
    decreases n,
{
    if n == 0 {
        c
    } else {
        crc_bit(crc_bits(c, (n - 1) as nat))
    }
}

/// The remainder of some bytes.
pub open spec fn crc_over(bytes: Seq<u8>) -> u32
    decreases bytes.len(),
{
    if bytes.len() == 0 {
        0xFFFF_FFFF
    } else {
        crc_bits(crc_over(bytes.drop_last()) ^ (bytes.last() as u32), 8)
    }
}

/// The checksum of some bytes: CRC-32 of IEEE 802.3.
#[verifier::opaque]
pub open spec fn crc32_of(bytes: Seq<u8>) -> u32 {
    crc_over(bytes) ^ 0xFFFF_FFFF
}

/// Calls `crc32fast::hash`, which gives the CRC-32 of IEEE 802.3 of the bytes.
#[verifier::external_body]
fn crc32(bytes: &[u8]) -> (r: u32)
    ensures
        r == crc32_of(bytes@),
{
    crc32fast::hash(bytes)
}

/// The bytes of a frame.
pub open spec fn frame_bytes(body: Seq<u8>) -> Seq<u8> {
    le32(body.len() as u32) + le32(crc32_of(body)) + body
}

/// What is wrong with a frame.
pub enum FaultView {
    /// Fewer bytes are left than a frame's header takes.
    TruncatedHeader,
    /// The frame claims more bytes than any record may have.
    LengthOutOfRange(u32),
    /// Fewer bytes are left than the header announces.
    TruncatedBody,
    /// The checksum in the header is not that of the body.
    CrcMismatch,
    /// The body is not a record.
    BadBody(Seq<char>),
}

impl View for FrameFault {
    type V = FaultView;

    open spec fn view(&self) -> FaultView {
        match *self {
            FrameFault::TruncatedHeader => FaultView::TruncatedHeader,
            FrameFault::LengthOutOfRange(n) => FaultView::LengthOutOfRange(n),
            FrameFault::TruncatedBody => FaultView::TruncatedBody,
            FrameFault::CrcMismatch => FaultView::CrcMismatch,
            FrameFault::BadBody(s) => FaultView::BadBody(s@),
        }
    }
}

/// What stands in a log at some place.
pub enum FrameView {
    /// A record, and where the next frame starts.
    Record(RecordView, int),
    /// The end of the log.
    Eof,
    /// Something that is no frame.
    Corrupt(FaultView),
}

/// What stands in a log at a place.
pub open spec fn frame_at<E, D>(codec: Codec<E, D>, buf: Seq<u8>, pos: int) -> FrameView where
    E: Fn(&WalRecord) -> Result<Vec<u8>, String>,
    D: Fn(&[u8]) -> Result<WalRecord, String>,
 {
    let len = u32_at(buf, pos);
    let body = buf.subrange(pos + 8, pos + 8 + len);
    if pos == buf.len() {
        FrameView::Eof
    } else if pos + 8 > buf.len() {
        FrameView::Corrupt(FaultView::TruncatedHeader)
    } else if len > MAX_FRAME {
        FrameView::Corrupt(FaultView::LengthOutOfRange(len))
    } else if pos + 8 + len > buf.len() {
        FrameView::Corrupt(FaultView::TruncatedBody)
    } else if crc32_of(body) != u32_at(buf, pos + 4) {
        FrameView::Corrupt(FaultView::CrcMismatch)
    } else {
        match codec.decoded(body) {
            Ok(rec) => FrameView::Record(rec, pos + 8 + len),
            Err(e) => FrameView::Corrupt(FaultView::BadBody(e)),
        }
    }
}

/// What a log holds.
#[verifier::ext_equal]
pub struct LogView {
    /// The records.
    pub records: Seq<RecordView>,
    /// Where the whole frames end.
    pub end: int,
    /// What is wrong behind them, if anything is there.
    pub fault: Option<FaultView>,
}

/// What a log holds from a place on.
pub open spec fn log_from<E, D>(codec: Codec<E, D>, buf: Seq<u8>, pos: int) -> LogView where
    E: Fn(&WalRecord) -> Result<Vec<u8>, String>,
    D: Fn(&[u8]) -> Result<WalRecord, String>,

    decreases buf.len() - pos,
{
    if 0 <= pos <= buf.len() {
        match frame_at(codec, buf, pos) {
            FrameView::Record(rec, next) => {
                let rest = log_from(codec, buf, next);
                LogView { records: seq![rec] + rest.records, ..rest }
            },
            FrameView::Eof => LogView { records: Seq::empty(), end: pos, fault: None },
            FrameView::Corrupt(f) => LogView { records: Seq::empty(), end: pos, fault: Some(f) },
        }
    } else {
        LogView { records: Seq::empty(), end: pos, fault: None }
    }
}

/// The highest number of any record; zero if there are none.
pub open spec fn highest(records: Seq<RecordView>) -> u64
    decreases records.len(),
{
    if records.len() == 0 {
        0
    } else {
        let before = highest(records.drop_last());
        if records.last().lsn > before {
            records.last().lsn
        } else {
            before
        }
    }
}

/// The number of the next record: at least `floor`, and above those of all records. It is
/// counted modulo 2^64.
pub open spec fn next_after(floor: u64, records: Seq<RecordView>) -> u64 {
    let next = ((highest(records) + 1) % 0x1_0000_0000_0000_0000) as u64;
    if floor > next {
        floor
    } else {
        next
    }
}

/// What opening a log found.
pub struct ReplayReport {
    /// The records, in order.
    pub records: Vec<WalRecord>,
    /// The number of the next record.
    pub next_lsn: u64,
    /// Where the log was cut off, and what was wrong there.
    pub corrupt_tail: Option<(u64, FrameFault)>,
}

/// What is known of an open log.
#[derive(Debug)]
pub struct Wal {
    offset: u64,
    next_lsn: u64,
}

/// What stands in a log at some place.
enum FrameParse {
    Record(WalRecord, usize),
    Eof,
    Corrupt(FrameFault),
}

spec fn parse_view(p: FrameParse) -> FrameView {
    match p {
        FrameParse::Record(rec, next) => FrameView::Record(rec@, next as int),
        FrameParse::Eof => FrameView::Eof,
        FrameParse::Corrupt(f) => FrameView::Corrupt(f@),
    }
}

fn read_u32(buf: &[u8], p: usize) -> (r: u32)
    requires
        p + 4 <= buf@.len(),
    ensures
        r == u32_at(buf@, p as int),
{
    let len: usize = buf.len();
    assert(p + 4 <= len);
    buf[p] as u32 + 256 * buf[p + 1] as u32 + 65536 * buf[p + 2] as u32 + 16777216 * buf[p + 3] as u32
}

fn parse_frame<E, D>(codec: &Codec<E, D>, buf: &[u8], pos: usize) -> (r: FrameParse) where
    E: Fn(&WalRecord) -> Result<Vec<u8>, String>,
    D: Fn(&[u8]) -> Result<WalRecord, String>,

    requires
        codec.valid(),
        pos <= buf@.len(),
    ensures
        parse_view(r) == frame_at(*codec, buf@, pos as int),
{
    let size: usize = buf.len();
    if pos == size {
        return FrameParse::Eof;
    }
    if size - pos < 8 {
        return FrameParse::Corrupt(FrameFault::TruncatedHeader);
    }
    let len: u32 = read_u32(buf, pos);
    if len > MAX_FRAME {
        return FrameParse::Corrupt(FrameFault::LengthOutOfRange(len));
    }
    let crc: u32 = read_u32(buf, pos + 4);
    if size - pos - 8 < len as usize {
        return FrameParse::Corrupt(FrameFault::TruncatedBody);
    }
    let end: usize = pos + 8 + len as usize;
    let body = vstd::slice::slice_subrange(buf, pos + 8, end);
    if crc32(body) != crc {
        return FrameParse::Corrupt(FrameFault::CrcMismatch);
    }
    match codec.decode(body) {
        Ok(rec) => FrameParse::Record(rec, end),
        Err(e) => FrameParse::Corrupt(FrameFault::BadBody(e)),
    }
}

/// The records of a log, where its whole frames end, and what is wrong behind them.
pub fn scan<E, D>(codec: &Codec<E, D>, buf: &[u8]) -> (r: (
    Vec<WalRecord>,
    usize,
    Option<FrameFault>,
)) where
    E: Fn(&WalRecord) -> Result<Vec<u8>, String>,
    D: Fn(&[u8]) -> Result<WalRecord, String>,

    requires
        codec.valid(),
    ensures
        ({
            let log = log_from(*codec, buf@, 0);
            &&& record_views(r.0@) == log.records
            &&& r.1 == log.end
            &&& r.1 <= buf@.len()
            &&& match r.2 {
                Some(f) => log.fault == Some(f@),
                None => log.fault is None && r.1 == buf@.len(),
            }
        }),
{
    let ghost all = log_from(*codec, buf@, 0);
    let mut records: Vec<WalRecord> = Vec::new();
    let mut offset: usize = 0;
    assert(record_views(records@) + all.records =~= all.records);
    loop
        invariant
            codec.valid(),
            offset <= buf@.len(),
            all.records == record_views(records@) + log_from(
                *codec,
                buf@,
                offset as int,
            ).records,
            all.end == log_from(*codec, buf@, offset as int).end,
            all.fault == log_from(*codec, buf@, offset as int).fault,
            all == log_from(*codec, buf@, 0),
        decreases buf@.len() - offset,
    {
        let ghost here = log_from(*codec, buf@, offset as int);
        match parse_frame(codec, buf, offset) {
            FrameParse::Record(rec, next) => {
                let ghost before = record_views(records@);
                let ghost rest = log_from(*codec, buf@, next as int);
                assert(here.records == seq![rec@] + rest.records);
                records.push(rec);
                proof {
                    assert(record_views(records@) =~= before.push(rec@));
                    assert(before + (seq![rec@] + rest.records) =~= before.push(rec@)
                        + rest.records);
                }
                offset = next;
            },
            FrameParse::Eof => {
                assert(record_views(records@) + here.records =~= record_views(records@));
                return (records, offset, None);
            },
            FrameParse::Corrupt(f) => {
                assert(record_views(records@) + here.records =~= record_views(records@));
                return (records, offset, Some(f));
            },
        }
    }
}

/// The bytes up to a place; all where there are fewer.
pub open spec fn up_to(data: Seq<u8>, n: int) -> Seq<u8> {
    if n < data.len() {
        data.take(n)
    } else {
        data
    }
}

impl Wal {
    /// The number of the next record.
    pub closed spec fn next(&self) -> u64 {
        self.next_lsn
    }

    /// Where the next frame goes.
    pub closed spec fn at(&self) -> u64 {
        self.offset
    }

    /// Opens a log, and cuts off what is behind its whole frames. `floor_lsn` is the least
    /// number that the next record may have. It fails only where the file does.
    pub fn open<B, E, D>(backend: &mut B, floor_lsn: u64, codec: &Codec<E, D>) -> (r: Result<
        (Wal, ReplayReport),
        Error,
    >) where
        B: StorageBackend,
        E: Fn(&WalRecord) -> Result<Vec<u8>, String>,
        D: Fn(&[u8]) -> Result<WalRecord, String>,

        requires
            codec.valid(),
            old(backend).data().len() <= usize::MAX,
        ensures
            match r {
                Ok((wal, report)) => {
                    let log = log_from(*codec, old(backend).data(), 0);
                    &&& record_views(report.records@) == log.records
                    &&& report.next_lsn == next_after(floor_lsn, log.records)
                    &&& match report.corrupt_tail {
                        Some((at, f)) => at == log.end && log.fault == Some(f@),
                        None => log.fault is None,
                    }
                    &&& final(backend).data() == old(backend).data().take(log.end)
                    &&& log.fault is Some ==> final(backend).kept() == final(backend).data()
                    &&& wal.next() == report.next_lsn
                    &&& wal.at() == log.end
                },
                Err(e) => e is Io,
            },
            old(backend).reliable() ==> r is Ok && final(backend).reliable(),
    {
        let buf = match read_all(&*backend) {
            Ok(b) => b,
            Err(e) => {
                return Err(Error::Io(e));
            },
        };
        let (records, end, fault) = scan(codec, buf.as_slice());
        let ghost data = backend.data();
        assert(buf@ =~= data);
        let corrupt_tail: Option<(u64, FrameFault)> = match fault {
            Some(f) => {
                match backend.truncate(end as u64) {
                    Ok(_) => {},
                    Err(e) => {
                        return Err(Error::Io(e));
                    },
                }
                match backend.sync() {
                    Ok(_) => {},
                    Err(e) => {
                        return Err(Error::Io(e));
                    },
                }
                assert(resized(data, end as nat) =~= data.take(end as int));
                Some((end as u64, f))
            },
            None => {
                assert(data.take(end as int) =~= data);
                None
            },
        };
        let mut last: u64 = 0;
        let mut i: usize = 0;
        while i < records.len()
            invariant
                i <= records@.len(),
                last == highest(record_views(records@).take(i as int)),
            decreases records.len() - i,
        {
            assert(record_views(records@).take(i + 1).drop_last() =~= record_views(
                records@,
            ).take(i as int));
            if records[i].lsn > last {
                last = records[i].lsn;
            }
            i = i + 1;
        }
        assert(record_views(records@).take(records@.len() as int) =~= record_views(records@));
        let after: u64 = last.wrapping_add(1);
        let next_lsn: u64 = if floor_lsn > after {
            floor_lsn
        } else {
            after
        };
        Ok(
            (
                Wal { offset: end as u64, next_lsn },
                ReplayReport { records, next_lsn, corrupt_tail },
            ),
        )
    }

    /// Whether a record of an operation was appended to a log that held `data`.
    pub open spec fn appends<E, D>(
        &self,
        after: Wal,
        data: Seq<u8>,
        now: Seq<u8>,
        op: OpView,
        codec: Codec<E, D>,
    ) -> bool where
        E: Fn(&WalRecord) -> Result<Vec<u8>, String>,
        D: Fn(&[u8]) -> Result<WalRecord, String>,
     {
        match codec.encoded(RecordView { lsn: self.next(), op }) {
            Ok(body) => body.len() <= MAX_FRAME && after.next() == self.next() + 1 && after.at()
                == self.at() + 8 + body.len() && now == up_to(data, self.at() as int)
                + frame_bytes(body),
            Err(_) => false,
        }
    }

    /// Appends a record, behind the whole frames: what a write that failed has left there is
    /// cut off first. It gives the number of the record, which then outlives a crash. Where it
    /// fails, the number is not used up, and the frames that were there stay.
    pub fn append<B, E, D>(&mut self, backend: &mut B, op: &Op, codec: &Codec<E, D>) -> (r: Result<
        u64,
        Error,
    >) where
        B: StorageBackend,
        E: Fn(&WalRecord) -> Result<Vec<u8>, String>,
        D: Fn(&[u8]) -> Result<WalRecord, String>,

        requires
            codec.valid(),
            old(self).next() < u64::MAX,
            old(self).at() + MAX_FRAME + 8 <= u64::MAX,
        ensures
            r is Err ==> *final(self) == *old(self),
            same_start(old(backend).data(), final(backend).data(), old(self).at() as int),
            old(self).at() <= old(backend).data().len() ==> same_start(
                old(backend).kept(),
                final(backend).kept(),
                old(self).at() as int,
            ) || r is Ok,
            old(self).at() <= old(backend).data().len() ==> final(self).at() <= final(backend).data().len(),
            match codec.encoded(RecordView { lsn: old(self).next(), op: op@ }) {
                Err(text) => r is Err && r->Err_0 is Serde && r->Err_0->Serde_0@ == text
                    && *final(backend) == *old(backend),
                Ok(body) => if body.len() > MAX_FRAME {
                    r is Err && r->Err_0 == Error::Invalid(
                        Invalid::RecordTooLarge(body.len() as usize),
                    ) && *final(backend) == *old(backend)
                } else {
                    match r {
                        Ok(lsn) => {
                            &&& lsn == old(self).next()
                            &&& final(self).next() == lsn + 1
                            &&& final(self).at() == old(self).at() + 8 + body.len()
                            &&& final(backend).data() == up_to(
                                old(backend).data(),
                                old(self).at() as int,
                            ) + frame_bytes(body)
                            &&& final(backend).kept() == final(backend).data()
                        },
                        Err(e) => e is Io && !(old(backend).reliable() && old(self).at() + 8
                            + body.len() <= usize::MAX),
                    }
                },
            },
            old(backend).reliable() ==> final(backend).reliable(),
    {
        let rec = WalRecord { lsn: self.next_lsn, op: op.clone() };
        let body = match codec.encode(&rec) {
            Ok(b) => b,
            Err(e) => {
                return Err(Error::Serde(e));
            },
        };
        if body.len() > MAX_FRAME as usize {
            return Err(Error::Invalid(Invalid::RecordTooLarge(body.len())));
        }
        let mut frame: Vec<u8> = Vec::new();
        push_u32(&mut frame, body.len() as u32);
        push_u32(&mut frame, crc32(body.as_slice()));
        push_bytes(&mut frame, body.as_slice());
        proof {
            assert(frame@ =~= frame_bytes(body@));
            assert(frame@.len() == 8 + body@.len());
        }
        let ghost data = backend.data();
        let len: u64 = match backend.len() {
            Ok(n) => n,
            Err(e) => {
                return Err(Error::Io(e));
            },
        };
        if len > self.offset {
            match backend.truncate(self.offset) {
                Ok(_) => {},
                Err(e) => {
                    return Err(Error::Io(e));
                },
            }
        }
        assert(backend.data() =~= up_to(data, self.offset as int));
        let ghost cut = backend.data();
        match backend.append(frame.as_slice()) {
            Ok(_) => {},
            Err(e) => {
                return Err(Error::Io(e));
            },
        }
        match backend.sync() {
            Ok(_) => {},
            Err(e) => {
                return Err(Error::Io(e));
            },
        }
        self.offset = self.offset + frame.len() as u64;
        self.next_lsn = self.next_lsn + 1;
        Ok(rec.lsn)
    }

    /// The number of the next record.
    pub fn next_lsn(&self) -> (r: u64)
        ensures
            r == self.next(),
    {
        self.next_lsn
    }

    /// Where the next frame goes.
    pub fn offset(&self) -> (r: u64)
        ensures
            r == self.at(),
    {
        self.offset
    }

    /// Empties the log, so that it stays empty after a crash. The numbers go on. Where this
    /// fails, the log is as it was or empty.
    pub fn reset<B: StorageBackend>(&mut self, backend: &mut B) -> (r: Result<(), Error>)
        ensures
            final(self).next() == old(self).next(),
            match r {
                Ok(_) => final(self).at() == 0 && final(backend).data().len() == 0 && final(backend).kept() == final(backend).data(),
                Err(e) => e is Io && ((final(self).at() == old(self).at() && final(backend).data() == old(backend).data()) || (final(self).at() == 0 && final(backend).data().len() == 0)),
            },
            old(backend).reliable() ==> r is Ok && final(backend).reliable(),
    {
        match backend.truncate(0) {
            Ok(_) => {},
            Err(e) => {
                return Err(Error::Io(e));
            },
        }
        self.offset = 0;
        match backend.sync() {
            Ok(_) => Ok(()),
            Err(e) => Err(Error::Io(e)),
        }
    }
}

/// No record has a higher number than the highest.
pub proof fn lemma_highest(records: Seq<RecordView>)
    ensures
        forall|i: int|
            0 <= i < records.len() ==> (#[trigger] records[i]).lsn <= highest(records),
        highest(records) == 0 || exists|i: int|
            0 <= i < records.len() && (#[trigger] records[i]).lsn == highest(records),
    decreases records.len(),
{
    if records.len() > 0 {
        let rest = records.drop_last();
        let last = records.len() - 1;
        lemma_highest(rest);
        assert forall|i: int| 0 <= i < records.len() implies (#[trigger] records[i]).lsn <= highest(
            records,
        ) by {
            if i < last {
                assert(rest[i].lsn <= highest(rest));
            }
        }
        if records[last].lsn > highest(rest) {
            assert(records[last].lsn == highest(records));
        } else if highest(rest) != 0 {
            let i = choose|i: int|
                0 <= i < rest.len() && (#[trigger] rest[i]).lsn == highest(rest);
            assert(records[i].lsn == highest(records));
        }
    }
}

/// Where the whole frames end, from a place on.
proof fn lemma_log_end<E, D>(codec: Codec<E, D>, buf: Seq<u8>, pos: int) where
    E: Fn(&WalRecord) -> Result<Vec<u8>, String>,
    D: Fn(&[u8]) -> Result<WalRecord, String>,

    requires
        0 <= pos <= buf.len(),
    ensures
        pos <= log_from(codec, buf, pos).end <= buf.len(),
    decreases buf.len() - pos,
{
    if let FrameView::Record(_, next) = frame_at(codec, buf, pos) {
        lemma_log_end(codec, buf, next);
    }
}

proof fn lemma_cut<E, D>(codec: Codec<E, D>, buf: Seq<u8>, pos: int) where
    E: Fn(&WalRecord) -> Result<Vec<u8>, String>,
    D: Fn(&[u8]) -> Result<WalRecord, String>,

    requires
        0 <= pos <= buf.len(),
    ensures
        ({
            let log = log_from(codec, buf, pos);
            log_from(codec, buf.take(log.end), pos) == (LogView { fault: None, ..log })
        }),
    decreases buf.len() - pos,
{
    let log = log_from(codec, buf, pos);
    let cut = buf.take(log.end);
    lemma_log_end(codec, buf, pos);
    if let FrameView::Record(rec, next) = frame_at(codec, buf, pos) {
        lemma_log_end(codec, buf, next);
        lemma_cut(codec, buf, next);
        let len = u32_at(buf, pos);
        assert(u32_at(cut, pos) == len);
        assert(u32_at(cut, pos + 4) == u32_at(buf, pos + 4));
        assert(cut.subrange(pos + 8, pos + 8 + len) =~= buf.subrange(pos + 8, pos + 8 + len));
        assert(frame_at(codec, cut, pos) == FrameView::Record(rec, next));
    } else {
        assert(frame_at(codec, cut, pos) == FrameView::Eof);
    }
}

/// Once what is behind its whole frames was cut off, a log is whole and holds the same records.
pub proof fn law_cut_log_is_whole<E, D>(codec: Codec<E, D>, buf: Seq<u8>) where
    E: Fn(&WalRecord) -> Result<Vec<u8>, String>,
    D: Fn(&[u8]) -> Result<WalRecord, String>,

    ensures
        ({
            let log = log_from(codec, buf, 0);
            &&& 0 <= log.end <= buf.len()
            &&& log_from(codec, buf.take(log.end), 0) == (LogView { fault: None, ..log })
        }),
{
    lemma_log_end(codec, buf, 0);
    lemma_cut(codec, buf, 0);
}

/// A frame that stands in a log also stands there once more bytes follow.
proof fn lemma_frame_stays<E, D>(codec: Codec<E, D>, buf: Seq<u8>, more: Seq<u8>, pos: int) where
    E: Fn(&WalRecord) -> Result<Vec<u8>, String>,
    D: Fn(&[u8]) -> Result<WalRecord, String>,

    requires
        0 <= pos <= buf.len(),
        frame_at(codec, buf, pos) is Record,
    ensures
        frame_at(codec, buf + more, pos) == frame_at(codec, buf, pos),
{
    let all = buf + more;
    assert(u32_at(all, pos) == u32_at(buf, pos));
    assert(u32_at(all, pos + 4) == u32_at(buf, pos + 4));
    let len = u32_at(buf, pos);
    assert(all.subrange(pos + 8, pos + 8 + len) =~= buf.subrange(pos + 8, pos + 8 + len));
}

/// What is read of a log that ends with a whole frame stays once more bytes follow.
proof fn lemma_log_stays<E, D>(codec: Codec<E, D>, buf: Seq<u8>, more: Seq<u8>, pos: int) where
    E: Fn(&WalRecord) -> Result<Vec<u8>, String>,
    D: Fn(&[u8]) -> Result<WalRecord, String>,

    requires
        0 <= pos <= buf.len(),
        log_from(codec, buf, pos).fault is None,
    ensures
        ({
            let rest = log_from(codec, buf + more, buf.len() as int);
            &&& log_from(codec, buf + more, pos).records == log_from(codec, buf, pos).records
                + rest.records
            &&& log_from(codec, buf + more, pos).end == rest.end
            &&& log_from(codec, buf + more, pos).fault == rest.fault
        }),
        log_from(codec, buf, pos).end == buf.len(),
    decreases buf.len() - pos,
{
    let rest = log_from(codec, buf + more, buf.len() as int);
    match frame_at(codec, buf, pos) {
        FrameView::Record(rec, next) => {
            lemma_frame_stays(codec, buf, more, pos);
            lemma_log_stays(codec, buf, more, next);
            assert(seq![rec] + (log_from(codec, buf, next).records + rest.records) =~= (seq![rec]
                + log_from(codec, buf, next).records) + rest.records);
        },
        FrameView::Eof => {
            assert(Seq::<RecordView>::empty() + rest.records =~= rest.records);
        },
        FrameView::Corrupt(f) => {},
    }
}

/// A whole log followed by the frame of a record holds that record last, and is whole.
pub proof fn law_append_then_replay<E, D>(
    codec: Codec<E, D>,
    buf: Seq<u8>,
    rec: RecordView,
    body: Seq<u8>,
) where
    E: Fn(&WalRecord) -> Result<Vec<u8>, String>,
    D: Fn(&[u8]) -> Result<WalRecord, String>,

    requires
        log_from(codec, buf, 0).fault is None,
        body.len() <= MAX_FRAME,
        codec.decoded(body) == Ok::<RecordView, Seq<char>>(rec),
    ensures
        log_from(codec, buf + frame_bytes(body), 0) == (LogView {
            records: log_from(codec, buf, 0).records.push(rec),
            end: (buf.len() + 8 + body.len()) as int,
            fault: None,
        }),
{
    let frame = frame_bytes(body);
    let all = buf + frame;
    let pos = buf.len() as int;
    lemma_log_stays(codec, buf, frame, 0);
    law_le32_round_trip(body.len() as u32, buf, le32(crc32_of(body)) + body);
    assert(all =~= buf + le32(body.len() as u32) + (le32(crc32_of(body)) + body));
    law_le32_round_trip(crc32_of(body), buf + le32(body.len() as u32), body);
    assert(all =~= (buf + le32(body.len() as u32)) + le32(crc32_of(body)) + body);
    assert(all.subrange(pos + 8, pos + 8 + body.len()) =~= body);
    let next = pos + 8 + body.len();
    assert(frame_at(codec, all, pos) == FrameView::Record(rec, next));
    assert(frame_at(codec, all, next) == FrameView::Eof);
    let rest = log_from(codec, all, pos);
    assert(log_from(codec, all, next).records =~= Seq::<RecordView>::empty());
    assert(rest.records =~= seq![rec]);
    assert(log_from(codec, buf, 0).records + seq![rec] =~= log_from(codec, buf, 0).records.push(
        rec,
    ));
}

/// Whatever follows a whole log, its records are read, and first.
pub proof fn law_whole_frames_survive<E, D>(codec: Codec<E, D>, buf: Seq<u8>, more: Seq<u8>) where
    E: Fn(&WalRecord) -> Result<Vec<u8>, String>,
    D: Fn(&[u8]) -> Result<WalRecord, String>,

    requires
        log_from(codec, buf, 0).fault is None,
    ensures
        log_from(codec, buf + more, 0).records.len() >= log_from(codec, buf, 0).records.len(),
        log_from(codec, buf + more, 0).records.take(
            log_from(codec, buf, 0).records.len() as int,
        ) == log_from(codec, buf, 0).records,
{
    lemma_log_stays(codec, buf, more, 0);
    let a = log_from(codec, buf, 0).records;
    let b = log_from(codec, buf + more, 0).records;
    assert(b.take(a.len() as int) =~= a);
}

/// Where only a part of the last frame was written, opening the log finds the records
/// before it and cuts that part off.
pub proof fn law_torn_frame_is_cut<E, D>(codec: Codec<E, D>, buf: Seq<u8>, body: Seq<u8>, k: int) where
    E: Fn(&WalRecord) -> Result<Vec<u8>, String>,
    D: Fn(&[u8]) -> Result<WalRecord, String>,

    requires
        log_from(codec, buf, 0).fault is None,
        body.len() <= MAX_FRAME,
        0 < k < frame_bytes(body).len(),
    ensures
        log_from(codec, buf + frame_bytes(body).take(k), 0) == (LogView {
            records: log_from(codec, buf, 0).records,
            end: buf.len() as int,
            fault: Some(
                if k < 8 {
                    FaultView::TruncatedHeader
                } else {
                    FaultView::TruncatedBody
                },
            ),
        }),
{
    let frame = frame_bytes(body);
    let torn = frame.take(k);
    let all = buf + torn;
    let pos = buf.len() as int;
    lemma_log_stays(codec, buf, torn, 0);
    if k >= 8 {
        let n = body.len() as u32;
        let tail = torn.skip(4);
        law_le32_round_trip(n, buf, tail);
        assert(torn =~= le32(n) + tail);
        assert(all =~= buf + le32(n) + tail);
    }
    let rest = log_from(codec, all, pos);
    assert(rest.records =~= Seq::<RecordView>::empty());
    assert(log_from(codec, buf, 0).records + rest.records =~= log_from(codec, buf, 0).records);
}

/// Opening a log stops at a frame that is damaged, with the records before it: one that claims to
/// be longer than any record, one whose checksum is not that of its body, and one whose body is not
/// a record. What follows it is not read.
pub proof fn law_damaged_frame_ends_the_log<E, D>(
    codec: Codec<E, D>,
    buf: Seq<u8>,
    len: u32,
    crc: u32,
    body: Seq<u8>,
    more: Seq<u8>,
) where
    E: Fn(&WalRecord) -> Result<Vec<u8>, String>,
    D: Fn(&[u8]) -> Result<WalRecord, String>,

    requires
        log_from(codec, buf, 0).fault is None,
        len > MAX_FRAME || (body.len() == len && (crc != crc32_of(body) || codec.decoded(
            body,
        ) is Err)),
    ensures
        log_from(codec, buf + (le32(len) + le32(crc) + body + more), 0) == (LogView {
            records: log_from(codec, buf, 0).records,
            end: buf.len() as int,
            fault: Some(
                if len > MAX_FRAME {
                    FaultView::LengthOutOfRange(len)
                } else if crc != crc32_of(body) {
                    FaultView::CrcMismatch
                } else {
                    FaultView::BadBody(codec.decoded(body)->Err_0)
                },
            ),
        }),
{
    let tail = le32(len) + le32(crc) + body + more;
    let all = buf + tail;
    let pos = buf.len() as int;
    lemma_log_stays(codec, buf, tail, 0);
    law_le32_round_trip(len, buf, le32(crc) + body + more);
    assert(all =~= buf + le32(len) + (le32(crc) + body + more));
    law_le32_round_trip(crc, buf + le32(len), body + more);
    assert(all =~= (buf + le32(len)) + le32(crc) + (body + more));
    if len <= MAX_FRAME {
        assert(all.subrange(pos + 8, pos + 8 + len) =~= body);
    }
    let rest = log_from(codec, all, pos);
    assert(rest.records =~= Seq::<RecordView>::empty());
    assert(log_from(codec, buf, 0).records + rest.records =~= log_from(codec, buf, 0).records);
}

/// A frame is the length of its body and its checksum, four bytes each and the least significant
/// first, and then the body. A body of up to 256 MiB that is a record is read as that record.
pub proof fn law_frames<E, D>(codec: Codec<E, D>, body: Seq<u8>) where
    E: Fn(&WalRecord) -> Result<Vec<u8>, String>,
    D: Fn(&[u8]) -> Result<WalRecord, String>,

    requires
        body.len() <= 0x1000_0000,
    ensures
        ({
            let f = frame_bytes(body);
            &&& f.len() == body.len() + 8
            &&& f[0] + 256 * f[1] + 65536 * f[2] + 16777216 * f[3] == body.len()
            &&& f[4] + 256 * f[5] + 65536 * f[6] + 16777216 * f[7] == crc32_of(body)
            &&& f.skip(8) == body
            &&& codec.decoded(body) matches Ok(rec) ==> frame_at(codec, f, 0) == FrameView::Record(
                rec,
                f.len() as int,
            )
        }),
{
    let f = frame_bytes(body);
    law_le_bytes(body.len() as u32, 0);
    law_le_bytes(crc32_of(body), 0);
    assert(f.skip(8) =~= body);
    assert(f.subrange(8, (8 + body.len()) as int) =~= body);
    assert(u32_at(f, 0) == body.len());
    assert(u32_at(f, 4) == crc32_of(body));
}

/// The number of the next record is not below the floor, and above the numbers of all records unless
/// one of them is the last number that there is; and it is the least such number, but not zero.
pub proof fn law_next_number(floor: u64, records: Seq<RecordView>)
    requires
        forall|i: int| 0 <= i < records.len() ==> (#[trigger] records[i]).lsn < u64::MAX,
    ensures
        next_after(floor, records) >= floor,
        next_after(floor, records) > 0,
        forall|i: int|
            0 <= i < records.len() ==> (#[trigger] records[i]).lsn < next_after(floor, records),
        next_after(floor, records) == floor || next_after(floor, records) == 1 || exists|i: int|
            0 <= i < records.len() && (#[trigger] records[i]).lsn + 1 == next_after(floor, records),
{
    lemma_highest(records);
    if highest(records) > 0 {
        let i = choose|i: int|
            0 <= i < records.len() && (#[trigger] records[i]).lsn == highest(records);
        assert(records[i].lsn < u64::MAX);
    }
}

/// What operations are about: the collection that they name, with the points, the identifiers and
/// the payload that they hold.
pub proof fn law_operations(op: Op)
    ensures
        match op {
            Op::CreateCollection { name, config } => op@ == (OpView::Create { name: name@, config }),
            Op::DropCollection { name } => op@ == (OpView::Drop { name: name@ }),
            Op::Upsert { collection, points } => op@ is Upsert && op@->Upsert_name == collection@
                && op@->points.len() == points@.len() && forall|i: int|
                0 <= i < points@.len() ==> (#[trigger] op@->points[i]).0 == points@[i].id@
                    && op@->points[i].1.vector == points@[i].vector@ && op@->points[i].1.payload
                    == payload_view(points@[i].payload),
            Op::Delete { collection, ids } => op@ is Delete && op@->Delete_name == collection@
                && op@->Delete_ids.len() == ids@.len() && forall|i: int|
                0 <= i < ids@.len() ==> #[trigger] op@->Delete_ids[i] == ids@[i]@,
            Op::SetPayload { collection, ids, payload } => op@ is Pay && op@->Pay_name
                == collection@ && op@->payload == Some(payload@) && op@->Pay_ids.len() == ids@.len()
                && forall|i: int|
                0 <= i < ids@.len() ==> #[trigger] op@->Pay_ids[i] == ids@[i]@,
            Op::ClearPayload { collection, ids } => op@ is Pay && op@->Pay_name == collection@
                && op@->payload is None && op@->Pay_ids.len() == ids@.len() && forall|i: int|
                0 <= i < ids@.len() ==> #[trigger] op@->Pay_ids[i] == ids@[i]@,
        },
{
}

} // verus!
