//! Databases on files in memory: writing, reading, searching, flushing, opening again.

use std::cell::Cell;
use std::collections::{BTreeMap, BTreeSet};
use std::rc::Rc;

use serde_json::Value;

use vectordb::engine::database::Step;
use vectordb::engine::format::Format;
use vectordb::engine::job::{idle, Job, Stage};
use vectordb::error::{FrameFault, IoError};
use vectordb::json::{Json, Num, Number};
use vectordb::kernel::Kernel;
use vectordb::manifest::{CollectionEntry, Manifest};
use vectordb::segment::files::{Part, SegmentFiles};
use vectordb::segment::immutable::{Meta, SegmentParts};
use vectordb::storage::layout::open_log;
use vectordb::storage::memory::MemoryFs;
use vectordb::storage::path::FsPath;
use vectordb::storage::{read_all, Contents, DirSet, FileMap, Fs, StorageBackend};
use vectordb::wal::{Codec, Op, Wal, WalRecord};
use vectordb::{
    CollectionConfig, Condition, Database, DatabaseOptions, Error, ExternalId, HnswParams,
    IndexKind, Metric, Point, Query, ScoredPoint, ScrollPage,
};

// ---------------------------------------------------------------- arithmetic

fn dot(a: &[u32], b: &[u32]) -> f32 {
    let mut acc = [0.0f32; 8];
    let n = a.len() / 8 * 8;
    let mut i = 0;
    while i < n {
        for j in 0..8 {
            acc[j] += f32::from_bits(a[i + j]) * f32::from_bits(b[i + j]);
        }
        i += 8;
    }
    let mut sum: f32 = acc.iter().sum();
    while i < a.len() {
        sum += f32::from_bits(a[i]) * f32::from_bits(b[i]);
        i += 1;
    }
    sum
}

fn l2(a: &[u32], b: &[u32]) -> f32 {
    a.iter()
        .zip(b)
        .map(|(x, y)| {
            let d = f32::from_bits(*x) - f32::from_bits(*y);
            d * d
        })
        .sum()
}

fn norm(v: &[u32]) -> u32 {
    dot(v, v).sqrt().to_bits()
}

fn score(m: Metric, a: &[u32], an: u32, b: &[u32], bn: u32) -> u32 {
    let s = match m {
        Metric::L2 => l2(a, b),
        Metric::Dot => dot(a, b),
        Metric::Cosine => {
            let (x, y) = (f32::from_bits(an), f32::from_bits(bn));
            if x == 0.0 || y == 0.0 {
                0.0
            } else {
                dot(a, b) / (x * y)
            }
        }
    };
    s.to_bits()
}

type Norm = fn(&[u32]) -> u32;
type Score = fn(Metric, &[u32], u32, &[u32], u32) -> u32;

fn kernel() -> Kernel<Norm, Score> {
    Kernel {
        norm: norm as Norm,
        score: score as Score,
    }
}

fn bits(v: &[f32]) -> Vec<u32> {
    v.iter().map(|x| x.to_bits()).collect()
}

fn floats(v: &[u32]) -> Vec<f32> {
    v.iter().map(|x| f32::from_bits(*x)).collect()
}

// ---------------------------------------------------------------- values

fn from_value(v: &Value) -> Json {
    match v {
        Value::Null => Json::Null,
        Value::Bool(b) => Json::Bool(*b),
        Value::Number(n) => Json::Number(Number {
            value: match (n.as_u64(), n.as_i64()) {
                (Some(x), _) => Num::PosInt(x),
                (None, Some(x)) => Num::NegInt(x),
                (None, None) => Num::Float(n.as_f64().unwrap().to_bits()),
            },
            text: n.to_string(),
        }),
        Value::String(s) => Json::Str(s.clone()),
        Value::Array(a) => Json::Array(a.iter().map(from_value).collect()),
        Value::Object(o) => {
            Json::Object(o.iter().map(|(k, v)| (k.clone(), from_value(v))).collect())
        }
    }
}

fn to_value(v: &Json) -> Value {
    match v {
        Json::Null => Value::Null,
        Json::Bool(b) => Value::Bool(*b),
        Json::Number(n) => match n.value {
            Num::PosInt(x) => Value::from(x),
            Num::NegInt(x) => Value::from(x),
            Num::Float(x) => Value::from(f64::from_bits(x)),
        },
        Json::Str(s) => Value::String(s.clone()),
        Json::Array(a) => Value::Array(a.iter().map(to_value).collect()),
        Json::Object(o) => {
            let mut m = serde_json::Map::new();
            for (k, v) in o {
                m.insert(k.clone(), to_value(v));
            }
            Value::Object(m)
        }
    }
}

fn json(text: &str) -> Json {
    from_value(&serde_json::from_str(text).unwrap())
}

fn text_of(p: &Option<Json>) -> Option<String> {
    p.as_ref().map(|v| to_value(v).to_string())
}

fn object(fields: Vec<(&str, Value)>) -> Value {
    let mut m = serde_json::Map::new();
    for (k, v) in fields {
        m.insert(k.to_string(), v);
    }
    Value::Object(m)
}

fn id_value(id: &ExternalId) -> Value {
    match id {
        ExternalId::Num(n) => Value::from(*n),
        ExternalId::Str(s) => Value::from(s.as_str()),
    }
}

fn value_id(v: &Value) -> ExternalId {
    match v {
        Value::Number(n) => ExternalId::Num(n.as_i64().unwrap()),
        other => ExternalId::Str(other.as_str().unwrap().to_string()),
    }
}

fn payload_value(p: &Option<Json>) -> Value {
    match p {
        Some(v) => to_value(v),
        None => Value::Null,
    }
}

fn value_payload(v: &Value) -> Option<Json> {
    if v.is_null() {
        None
    } else {
        Some(from_value(v))
    }
}

fn config_value(c: &CollectionConfig) -> Value {
    let index = match &c.index {
        IndexKind::Flat => Value::Null,
        IndexKind::Hnsw { params } => Value::from(vec![
            params.m as u64,
            params.m0 as u64,
            params.ef_construct as u64,
            params.ef_search as u64,
        ]),
    };
    object(vec![
        ("dim", Value::from(c.dim as u64)),
        ("metric", Value::from(vectordb::api::metric_name(c.metric))),
        ("index", index),
    ])
}

fn value_config(v: &Value) -> CollectionConfig {
    let metric = vectordb::api::parse_metric(v["metric"].as_str().unwrap()).unwrap();
    let c = CollectionConfig::new(v["dim"].as_u64().unwrap() as usize, metric).unwrap();
    match v["index"].as_array() {
        None => c.with_index(IndexKind::Flat),
        Some(a) => {
            let n = |i: usize| a[i].as_u64().unwrap() as usize;
            c.with_index(IndexKind::Hnsw {
                params: HnswParams {
                    m: n(0),
                    m0: n(1),
                    ef_construct: n(2),
                    ef_search: n(3),
                },
            })
        }
    }
}

fn op_value(op: &Op) -> Value {
    let list = |ids: &Vec<ExternalId>| Value::Array(ids.iter().map(id_value).collect());
    match op {
        Op::CreateCollection { name, config } => object(vec![
            ("op", Value::from("create")),
            ("name", Value::from(name.as_str())),
            ("config", config_value(config)),
        ]),
        Op::DropCollection { name } => object(vec![
            ("op", Value::from("drop")),
            ("name", Value::from(name.as_str())),
        ]),
        Op::Upsert { collection, points } => object(vec![
            ("op", Value::from("upsert")),
            ("name", Value::from(collection.as_str())),
            (
                "points",
                Value::Array(
                    points
                        .iter()
                        .map(|p| {
                            object(vec![
                                ("id", id_value(&p.id)),
                                ("vector", Value::from(p.vector.clone())),
                                ("payload", payload_value(&p.payload)),
                            ])
                        })
                        .collect(),
                ),
            ),
        ]),
        Op::Delete { collection, ids } => object(vec![
            ("op", Value::from("delete")),
            ("name", Value::from(collection.as_str())),
            ("ids", list(ids)),
        ]),
        Op::SetPayload {
            collection,
            ids,
            payload,
        } => object(vec![
            ("op", Value::from("set")),
            ("name", Value::from(collection.as_str())),
            ("ids", list(ids)),
            ("payload", to_value(payload)),
        ]),
        Op::ClearPayload { collection, ids } => object(vec![
            ("op", Value::from("clear")),
            ("name", Value::from(collection.as_str())),
            ("ids", list(ids)),
        ]),
    }
}

fn value_op(v: &Value) -> Op {
    let name = v["name"].as_str().unwrap().to_string();
    let ids = || -> Vec<ExternalId> {
        v["ids"].as_array().unwrap().iter().map(value_id).collect()
    };
    match v["op"].as_str().unwrap() {
        "create" => Op::CreateCollection {
            name,
            config: value_config(&v["config"]),
        },
        "drop" => Op::DropCollection { name },
        "upsert" => Op::Upsert {
            collection: name,
            points: v["points"]
                .as_array()
                .unwrap()
                .iter()
                .map(|p| {
                    Point::new(
                        value_id(&p["id"]),
                        p["vector"]
                            .as_array()
                            .unwrap()
                            .iter()
                            .map(|x| x.as_u64().unwrap() as u32)
                            .collect(),
                        value_payload(&p["payload"]),
                    )
                })
                .collect(),
        },
        "delete" => Op::Delete {
            collection: name,
            ids: ids(),
        },
        "set" => Op::SetPayload {
            collection: name,
            ids: ids(),
            payload: from_value(&v["payload"]),
        },
        _ => Op::ClearPayload {
            collection: name,
            ids: ids(),
        },
    }
}

type Encode = fn(&WalRecord) -> Result<Vec<u8>, String>;
type Decode = fn(&[u8]) -> Result<WalRecord, String>;

fn encode(r: &WalRecord) -> Result<Vec<u8>, String> {
    let v = object(vec![("lsn", Value::from(r.lsn)), ("op", op_value(&r.op))]);
    serde_json::to_vec(&v).map_err(|e| e.to_string())
}

fn decode(b: &[u8]) -> Result<WalRecord, String> {
    let v: Value = serde_json::from_slice(b).map_err(|e| e.to_string())?;
    Ok(WalRecord {
        lsn: v["lsn"].as_u64().ok_or("no lsn")?,
        op: value_op(&v["op"]),
    })
}

fn codec() -> Codec<Encode, Decode> {
    Codec {
        encode: encode as Encode,
        decode: decode as Decode,
    }
}

fn manifest_bytes(m: &Manifest) -> Result<Vec<u8>, String> {
    let entries = m
        .collections
        .iter()
        .map(|e| {
            object(vec![
                ("name", Value::from(e.name.as_str())),
                ("config", config_value(&e.config)),
                ("segments", Value::from(e.segments.clone())),
            ])
        })
        .collect();
    let v = object(vec![
        ("version", Value::from(m.version)),
        ("last_flushed_lsn", Value::from(m.last_flushed_lsn)),
        ("collections", Value::Array(entries)),
    ]);
    serde_json::to_vec(&v).map_err(|e| e.to_string())
}

fn manifest_of(b: &[u8]) -> Result<Manifest, String> {
    let v: Value = serde_json::from_slice(b).map_err(|e| e.to_string())?;
    Ok(Manifest {
        version: v["version"].as_u64().unwrap() as u32,
        last_flushed_lsn: v["last_flushed_lsn"].as_u64().unwrap(),
        collections: v["collections"]
            .as_array()
            .unwrap()
            .iter()
            .map(|e| CollectionEntry {
                name: e["name"].as_str().unwrap().to_string(),
                config: value_config(&e["config"]),
                segments: e["segments"]
                    .as_array()
                    .unwrap()
                    .iter()
                    .map(|x| x.as_u64().unwrap())
                    .collect(),
            })
            .collect(),
    })
}

// ---------------------------------------------------------------- segments on files

fn value_lines(values: Vec<Value>) -> Vec<Vec<u8>> {
    values
        .iter()
        .map(|v| serde_json::to_vec(v).unwrap())
        .collect()
}

fn lines_values(lines: &[Vec<u8>]) -> Vec<Value> {
    lines
        .iter()
        .map(|l| serde_json::from_slice(l).unwrap())
        .collect()
}

fn overlay_lines(entries: &Vec<(ExternalId, Option<Json>)>) -> Result<Vec<Vec<u8>>, String> {
    Ok(value_lines(
        entries
            .iter()
            .map(|(id, p)| object(vec![("id", id_value(id)), ("payload", payload_value(p))]))
            .collect(),
    ))
}

fn files_of(parts: &SegmentParts) -> Result<SegmentFiles, String> {
    let meta = object(vec![
        ("seg_id", Value::from(parts.meta.seg_id)),
        ("dim", Value::from(parts.meta.dim as u64)),
        ("count", Value::from(parts.meta.count as u64)),
    ]);
    Ok(SegmentFiles {
        meta: serde_json::to_vec(&meta).unwrap(),
        vectors: parts.vectors.clone(),
        norms: parts.norms.clone(),
        ids: value_lines(parts.ids.iter().map(id_value).collect()),
        payloads: value_lines(parts.payloads.iter().map(to_value).collect()),
        dels: parts.dels.clone(),
        overlay: None,
        index: None,
    })
}

fn parts_of(files: &SegmentFiles) -> Result<SegmentParts, Error> {
    let meta: Value =
        serde_json::from_slice(&files.meta).map_err(|e| Error::Serde(e.to_string()))?;
    Ok(SegmentParts {
        meta: Meta {
            seg_id: meta["seg_id"].as_u64().unwrap(),
            dim: meta["dim"].as_u64().unwrap() as usize,
            count: meta["count"].as_u64().unwrap() as usize,
        },
        vectors: files.vectors.clone(),
        norms: files.norms.clone(),
        ids: lines_values(&files.ids).iter().map(value_id).collect(),
        payloads: lines_values(&files.payloads)
            .iter()
            .map(from_value)
            .collect(),
        dels: files.dels.clone(),
        overlay: lines_values(&files.overlay.clone().unwrap_or_default())
            .iter()
            .map(|v| (value_id(&v["id"]), value_payload(&v["payload"])))
            .collect(),
        index: files.index.clone(),
    })
}

type ManifestBytes = fn(&Manifest) -> Result<Vec<u8>, String>;
type ManifestOf = fn(&[u8]) -> Result<Manifest, String>;
type FilesOf = fn(&SegmentParts) -> Result<SegmentFiles, String>;
type PartsOf = fn(&SegmentFiles) -> Result<SegmentParts, Error>;
type OverlayLines = fn(&Vec<(ExternalId, Option<Json>)>) -> Result<Vec<Vec<u8>>, String>;
type Files = Format<Encode, Decode, ManifestBytes, ManifestOf, FilesOf, PartsOf, OverlayLines>;

fn format() -> Files {
    Format {
        records: codec(),
        manifest_bytes: manifest_bytes as ManifestBytes,
        manifest_of: manifest_of as ManifestOf,
        segment_files: files_of as FilesOf,
        segment_of: parts_of as PartsOf,
        overlay_lines: overlay_lines as OverlayLines,
    }
}

// ---------------------------------------------------------------- a database on files

struct Db<F: Fs = MemoryFs> {
    fs: F,
    root: FsPath,
    db: Database,
    wal: Wal,
    /// What is still to be done.
    job: Job,
    /// How many more steps are performed before the storage fails.
    fuse: Option<usize>,
}

impl Db {
    fn fresh() -> Db {
        Db::open(MemoryFs::new()).unwrap()
    }
}

impl<F: Fs> Db<F> {
    fn open(fs: F) -> Result<Db<F>, Error> {
        let mut fs = fs;
        let root = FsPath::new("/db");
        let (db, wal) =
            format().open_database(&mut fs, &root, DatabaseOptions::default(), &kernel())?;
        Ok(Db {
            fs,
            root,
            db,
            wal,
            job: idle(""),
            fuse: None,
        })
    }

    fn reopen(self) -> Db<F> {
        Db::open(self.fs).unwrap()
    }

    fn check(&mut self) -> Result<(), Error> {
        match self.fuse {
            Some(0) => Err(Error::Io(IoError::StorageFull)),
            Some(n) => {
                self.fuse = Some(n - 1);
                Ok(())
            }
            None => Ok(()),
        }
    }

    fn perform(&mut self, step: &Step) -> Result<(), Error> {
        self.check()?;
        format().perform(&mut self.fs, &self.root, &mut self.wal, step)
    }

    fn run(&mut self, op: Op) -> Result<usize, Error> {
        if self.fuse.is_none() {
            let (fs, db, wal, job) = (&mut self.fs, &mut self.db, &mut self.wal, &mut self.job);
            return format().write(fs, &self.root, db, wal, job, &op, &kernel());
        }
        self.check()?;
        let backend = open_log(&mut self.fs, &self.root)?;
        let job = self
            .db
            .write(&mut self.wal, backend, &op, &codec(), &kernel())?;
        self.finish(job)
    }

    fn finish(&mut self, mut job: Job) -> Result<usize, Error> {
        while let Some(step) = job.step() {
            self.perform(step)?;
            self.db
                .proceed(&mut job, self.wal.next_lsn(), &kernel())?;
        }
        Ok(job.done.count)
    }

    fn create(&mut self, name: &str, config: CollectionConfig) -> Result<(), Error> {
        let op = self.db.create_collection(name, config)?;
        self.run(op).map(|_| ())
    }

    fn drop_collection(&mut self, name: &str) -> Result<(), Error> {
        let op = self.db.drop_collection(name)?;
        self.run(op).map(|_| ())
    }

    fn upsert(&mut self, name: &str, points: &[Point]) -> Result<(), Error> {
        match self.db.collection(name).unwrap().upsert(points)? {
            Some(op) => self.run(op).map(|_| ()),
            None => Ok(()),
        }
    }

    fn delete(&mut self, name: &str, ids: &[ExternalId]) -> Result<usize, Error> {
        match self.db.collection(name).unwrap().delete(ids) {
            Some(op) => self.run(op),
            None => Ok(0),
        }
    }

    fn set_payload(&mut self, name: &str, ids: &[ExternalId], p: &Json) -> Result<usize, Error> {
        match self.db.collection(name).unwrap().set_payload(ids, p) {
            Some(op) => self.run(op),
            None => Ok(0),
        }
    }

    fn clear_payload(&mut self, name: &str, ids: &[ExternalId]) -> Result<usize, Error> {
        match self.db.collection(name).unwrap().clear_payload(ids) {
            Some(op) => self.run(op),
            None => Ok(0),
        }
    }

    fn flush(&mut self) -> Result<(), Error> {
        if self.fuse.is_none() {
            let (fs, db, wal, job) = (&mut self.fs, &mut self.db, &mut self.wal, &mut self.job);
            return format().flush(fs, &self.root, db, wal, job, &kernel());
        }
        let job = self.db.start_flush(self.wal.next_lsn(), &kernel())?;
        self.finish(job).map(|_| ())
    }

    fn compact(&mut self, name: &str) -> Result<(), Error> {
        if self.fuse.is_none() {
            let (fs, db, wal, job) = (&mut self.fs, &mut self.db, &mut self.wal, &mut self.job);
            return format().compact(fs, &self.root, db, wal, job, name, &kernel());
        }
        let job = self.db.start_compact(name, &kernel())?;
        self.finish(job).map(|_| ())
    }

    fn count(&self, name: &str) -> u64 {
        self.db.collection(name).unwrap().count()
    }

    fn get(&self, name: &str, ids: &[ExternalId]) -> Vec<Option<Point>> {
        self.db.collection(name).unwrap().get(ids)
    }

    fn scroll(&self, name: &str, offset: u64, limit: usize, f: Option<Condition>) -> ScrollPage {
        self.db.collection(name).unwrap().scroll(offset, limit, &f)
    }

    fn query(&self, name: &str, q: &Query) -> Result<Vec<ScoredPoint>, Error> {
        self.db.collection(name).unwrap().query(&kernel(), q)
    }

    fn has(&self, path: &str) -> bool {
        self.fs.exists_at(&FsPath::new(path))
    }
}

fn num(n: i64) -> ExternalId {
    ExternalId::from(n)
}

fn vector(v: &[f32]) -> Query {
    Query::vector(bits(v))
}

fn string(s: &str) -> Json {
    Json::Str(s.to_string())
}

fn at_least(field: &str, x: f64) -> Condition {
    Condition::range(field, None, Some(x.to_bits()), None, None)
}

// ---------------------------------------------------------------- create, read, update, delete

fn docs() -> Db {
    let mut db = Db::fresh();
    db.create("docs", CollectionConfig::new(3, Metric::Cosine).unwrap())
        .unwrap();
    db
}

fn pt(id: ExternalId, v: Vec<f32>, lang: &str, year: i64) -> Point {
    let payload = object(vec![
        ("lang", Value::from(lang)),
        ("year", Value::from(year)),
    ]);
    Point::new(id, bits(&v), Some(from_value(&payload)))
}

#[test]
fn crud_roundtrip() {
    let mut db = docs();
    db.upsert(
        "docs",
        &[
            pt(num(1), vec![1.0, 0.0, 0.0], "en", 2023),
            pt(num(2), vec![0.0, 1.0, 0.0], "zh", 2022),
            pt(ExternalId::from("s3"), vec![0.9, 0.1, 0.0], "en", 2024),
        ],
    )
    .unwrap();

    assert_eq!(db.count("docs"), 3);
    let got = db.get("docs", &[num(1), ExternalId::from("s3"), num(99)]);
    assert!(got[0].is_some());
    assert!(got[1].is_some());
    assert!(got[2].is_none());
    assert_eq!(
        text_of(&got[1].as_ref().unwrap().payload),
        Some("{\"lang\":\"en\",\"year\":2024}".to_string())
    );

    let hits = db
        .query("docs", &vector(&[1.0, 0.0, 0.0]).top_k(2))
        .unwrap();
    assert_eq!(hits.len(), 2);
    assert_eq!(hits[0].id, num(1));
    assert!(f32::from_bits(hits[0].score) > f32::from_bits(hits[1].score));

    db.upsert("docs", &[pt(num(1), vec![0.0, 0.0, 1.0], "en", 2023)])
        .unwrap();
    assert_eq!(db.count("docs"), 3);
    let hits = db
        .query("docs", &vector(&[0.0, 0.0, 1.0]).top_k(1))
        .unwrap();
    assert_eq!(hits[0].id, num(1));

    assert_eq!(db.delete("docs", &[num(2)]).unwrap(), 1);
    assert_eq!(db.delete("docs", &[num(2)]).unwrap(), 0);
    assert_eq!(db.count("docs"), 2);
    assert!(db.get("docs", &[num(2)])[0].is_none());

    assert_eq!(
        db.set_payload(
            "docs",
            &[num(1)],
            &json("{\"lang\":\"en\",\"year\":2025,\"tag\":\"x\"}")
        )
        .unwrap(),
        1
    );
    let hits = db
        .query(
            "docs",
            &vector(&[0.0, 0.0, 1.0]).filter(at_least("year", 2025.0)),
        )
        .unwrap();
    assert_eq!(hits.len(), 1);
    assert_eq!(db.clear_payload("docs", &[num(1)]).unwrap(), 1);
    let hits = db
        .query(
            "docs",
            &vector(&[0.0, 0.0, 1.0]).filter(Condition::has_field("lang")),
        )
        .unwrap();
    assert!(hits.iter().all(|h| h.id != num(1)));
}

#[test]
fn dimension_mismatch_rejected_wholesale() {
    let mut db = docs();
    let err = db
        .upsert(
            "docs",
            &[
                pt(num(1), vec![1.0, 0.0, 0.0], "en", 2020),
                pt(num(2), vec![1.0], "en", 2020),
            ],
        )
        .unwrap_err();
    assert!(matches!(
        err,
        Error::DimensionMismatch {
            expected: 3,
            got: 1
        }
    ));
    assert_eq!(db.count("docs"), 0);
}

#[test]
fn duplicate_collection_rejected() {
    let mut db = docs();
    let err = db
        .create("docs", CollectionConfig::new(3, Metric::L2).unwrap())
        .unwrap_err();
    assert!(matches!(err, Error::CollectionExists(_)));
}

#[test]
fn reopen_after_flush_and_after_wal_only() {
    let mut db = docs();
    db.upsert("docs", &[pt(num(1), vec![1.0, 0.0, 0.0], "en", 2020)])
        .unwrap();
    db.flush().unwrap();
    db.upsert("docs", &[pt(num(2), vec![0.0, 1.0, 0.0], "zh", 2021)])
        .unwrap();
    let db = db.reopen();
    assert_eq!(db.count("docs"), 2);
    let hits = db
        .query("docs", &vector(&[0.0, 1.0, 0.0]).top_k(1))
        .unwrap();
    assert_eq!(hits[0].id, num(2));

    let mut db = docs();
    db.upsert("docs", &[pt(num(7), vec![1.0, 1.0, 0.0], "en", 2020)])
        .unwrap();
    let db = db.reopen();
    assert_eq!(db.count("docs"), 1);
}

#[test]
fn scroll_pages_and_filters() {
    let mut db = docs();
    let mut pts = Vec::new();
    for i in 0..10i64 {
        pts.push(pt(
            num(i),
            vec![i as f32, 0.0, 1.0],
            if i % 2 == 0 { "en" } else { "zh" },
            2020,
        ));
    }
    db.upsert("docs", &pts).unwrap();

    let mut seen = Vec::new();
    let mut off = 0;
    while let Some(next) = {
        let page = db.scroll("docs", off, 3, None);
        seen.extend(page.points.iter().map(|p| p.id.clone()));
        page.next_offset
    } {
        off = next;
    }
    assert_eq!(seen.len(), 10);

    let page = db.scroll(
        "docs",
        0,
        100,
        Some(Condition::matches("lang", string("en"))),
    );
    assert_eq!(page.points.len(), 5);
    assert!(page.next_offset.is_none());
}

#[test]
fn compact_merges_and_purges() {
    let mut db = docs();
    for i in 0..5i64 {
        db.upsert("docs", &[pt(num(i), vec![i as f32, 1.0, 0.0], "en", 2020)])
            .unwrap();
        db.flush().unwrap();
    }
    db.delete("docs", &[num(0), num(2)]).unwrap();
    assert_eq!(db.count("docs"), 3);

    db.compact("docs").unwrap();
    assert_eq!(db.count("docs"), 3);
    let hits = db
        .query("docs", &vector(&[0.0, 1.0, 0.0]).top_k(10))
        .unwrap();
    assert_eq!(hits.len(), 3);
    assert!(hits
        .iter()
        .all(|h| h.id.as_num() != Some(0) && h.id.as_num() != Some(2)));

    let db = db.reopen();
    assert_eq!(db.count("docs"), 3);
}

#[test]
fn memory_database_smoke() {
    let mut db = Db::fresh();
    db.create("m", CollectionConfig::new(2, Metric::Dot).unwrap())
        .unwrap();
    db.upsert("m", &[Point::new(num(1), bits(&[1.0, 2.0]), None)])
        .unwrap();
    assert_eq!(db.count("m"), 1);
    let hits = db.query("m", &vector(&[1.0, 2.0]).top_k(1)).unwrap();
    assert_eq!(hits[0].id, num(1));
}

#[test]
fn drop_collection_removes_everything() {
    let mut db = docs();
    db.upsert("docs", &[pt(num(1), vec![1.0, 0.0, 0.0], "en", 2020)])
        .unwrap();
    db.flush().unwrap();
    assert!(db.has("/db/segments/seg-1"));
    db.drop_collection("docs").unwrap();
    assert!(db.db.collection("docs").is_none());
    assert!(db.db.collections().is_empty());
    assert!(!db.has("/db/segments/seg-1"));
    let db = db.reopen();
    assert!(db.db.collection("docs").is_none());
}

// ---------------------------------------------------------------- failing storage

/// How many operations of the storage still succeed; all of them where nothing is said.
type Left = Rc<Cell<Option<usize>>>;

fn spend(left: &Left) -> Result<(), IoError> {
    match left.get() {
        None => Ok(()),
        Some(0) => Err(IoError::StorageFull),
        Some(n) => {
            left.set(Some(n - 1));
            Ok(())
        }
    }
}

struct FaultFile {
    bytes: Vec<u8>,
    left: Left,
    torn: bool,
}

impl StorageBackend for FaultFile {
    fn data(&self) -> Contents {
        unreachable!()
    }

    fn reliable(&self) -> bool {
        unreachable!()
    }

    fn kept(&self) -> Contents {
        unreachable!()
    }

    fn read_at(&self, buf: &mut [u8], offset: u64) -> Result<(), IoError> {
        let from = offset as usize;
        let part = self.bytes.get(from..from + buf.len());
        buf.copy_from_slice(part.ok_or(IoError::UnexpectedEof)?);
        Ok(())
    }

    fn write_at(&mut self, buf: &[u8], offset: u64) -> Result<(), IoError> {
        let r = spend(&self.left);
        let buf = match (&r, self.torn) {
            (Ok(_), _) => buf,
            (Err(_), true) => &buf[..buf.len() / 2],
            (Err(_), false) => return r,
        };
        let from = offset as usize;
        if self.bytes.len() < from + buf.len() {
            self.bytes.resize(from + buf.len(), 0);
        }
        self.bytes[from..from + buf.len()].copy_from_slice(buf);
        r
    }

    fn len(&self) -> Result<u64, IoError> {
        Ok(self.bytes.len() as u64)
    }

    fn truncate(&mut self, new_len: u64) -> Result<(), IoError> {
        spend(&self.left)?;
        self.bytes.resize(new_len as usize, 0);
        Ok(())
    }

    fn sync(&mut self) -> Result<(), IoError> {
        spend(&self.left)
    }
}

/// Files in memory, in a storage that may fail.
struct FaultFs {
    kept: BTreeMap<Vec<String>, FaultFile>,
    folders: BTreeSet<Vec<String>>,
    left: Left,
    torn: bool,
}

impl FaultFs {
    fn new(torn: bool) -> (FaultFs, Left) {
        let left: Left = Rc::new(Cell::new(None));
        let fs = FaultFs {
            kept: BTreeMap::new(),
            folders: BTreeSet::new(),
            left: left.clone(),
            torn,
        };
        (fs, left)
    }
}

impl Fs for FaultFs {
    type File = FaultFile;

    fn files(&self) -> FileMap {
        unreachable!()
    }

    fn dirs(&self) -> DirSet {
        unreachable!()
    }

    fn sound(&self) -> bool {
        unreachable!()
    }

    fn reliable(&self) -> bool {
        unreachable!()
    }

    fn lasting(&self) -> DirSet {
        unreachable!()
    }

    fn flat() -> bool {
        unreachable!()
    }

    fn create(&mut self, path: &FsPath) -> Result<&mut FaultFile, IoError> {
        spend(&self.left)?;
        let file = FaultFile {
            bytes: Vec::new(),
            left: self.left.clone(),
            torn: self.torn,
        };
        self.kept.insert(path.parts.clone(), file);
        self.open_rw(path)
    }

    fn open_rw(&mut self, path: &FsPath) -> Result<&mut FaultFile, IoError> {
        spend(&self.left)?;
        self.kept.get_mut(&path.parts).ok_or(IoError::NotFound)
    }

    fn rename(&mut self, from: &FsPath, to: &FsPath) -> Result<(), IoError> {
        spend(&self.left)?;
        if let Some(f) = self.kept.remove(&from.parts) {
            self.kept.insert(to.parts.clone(), f);
            return Ok(());
        }
        if !self.folders.contains(&from.parts) {
            return Err(IoError::NotFound);
        }
        let place = |p: &Vec<String>| -> Vec<String> {
            match p.strip_prefix(from.parts.as_slice()) {
                Some(rest) => to.parts.iter().chain(rest).cloned().collect(),
                None => p.clone(),
            }
        };
        self.folders = self.folders.iter().map(place).collect();
        self.kept = std::mem::take(&mut self.kept)
            .into_iter()
            .map(|(p, f)| (place(&p), f))
            .collect();
        Ok(())
    }

    fn remove_file(&mut self, path: &FsPath) -> Result<(), IoError> {
        spend(&self.left)?;
        match self.kept.remove(&path.parts) {
            Some(_) => Ok(()),
            None => Err(IoError::NotFound),
        }
    }

    fn remove_dir_all(&mut self, path: &FsPath) -> Result<(), IoError> {
        spend(&self.left)?;
        self.kept.retain(|p, _| !p.starts_with(&path.parts));
        self.folders.retain(|p| !p.starts_with(&path.parts));
        Ok(())
    }

    fn create_dir_all(&mut self, path: &FsPath) -> Result<(), IoError> {
        spend(&self.left)?;
        for n in 0..=path.parts.len() {
            self.folders.insert(path.parts[..n].to_vec());
        }
        Ok(())
    }

    fn exists_at(&self, path: &FsPath) -> bool {
        self.kept.contains_key(&path.parts) || self.folders.contains(&path.parts)
    }

    fn list_dir(&self, path: &FsPath) -> Result<Vec<FsPath>, IoError> {
        spend(&self.left)?;
        let all: BTreeSet<&Vec<String>> = self.kept.keys().chain(&self.folders).collect();
        Ok(all
            .into_iter()
            .filter(|p| p.len() == path.parts.len() + 1 && p.starts_with(&path.parts))
            .map(|p| FsPath { parts: p.clone() })
            .collect())
    }
}

fn n_point(id: i64) -> Point {
    let payload = object(vec![("n", Value::from(id))]);
    Point::new(num(id), bits(&[id as f32, 1.0]), Some(from_value(&payload)))
}

#[test]
fn failed_write_leaves_consistent_state() {
    let (fs, left) = FaultFs::new(false);
    let mut db = Db::open(fs).unwrap();
    db.create("c", CollectionConfig::new(2, Metric::L2).unwrap())
        .unwrap();
    db.upsert("c", &[n_point(1)]).unwrap();

    // The log is opened, and writing to it fails.
    left.set(Some(1));
    let err = db.upsert("c", &[n_point(2)]).unwrap_err();
    assert!(matches!(err, Error::Io(IoError::StorageFull)));

    assert_eq!(db.count("c"), 1);
    left.set(None);

    let db = db.reopen();
    let pts = db.get("c", &[num(1), num(2)]);
    assert!(pts[0].is_some(), "the first point was confirmed");
    match pts[1].as_ref() {
        None => {}
        Some(p) => {
            assert_eq!(floats(&p.vector), vec![2.0, 1.0]);
            assert_eq!(text_of(&p.payload), Some("{\"n\":2}".to_string()));
        }
    }
    let n = db.count("c");
    let alive = pts.iter().filter(|p| p.is_some()).count() as u64;
    assert_eq!(n, alive);
}

#[test]
fn failed_flush_keeps_wal_intact() {
    let (fs, left) = FaultFs::new(false);
    let mut db = Db::open(fs).unwrap();
    db.create("c", CollectionConfig::new(2, Metric::L2).unwrap())
        .unwrap();
    db.upsert("c", &[n_point(1), n_point(2)]).unwrap();

    left.set(Some(0));
    let _ = db.flush().unwrap_err();
    left.set(None);

    let db = db.reopen();
    assert_eq!(db.count("c"), 2);
}

/// What a collection holds, in words.
fn contents<F: Fs>(db: &Db<F>, name: &str) -> Vec<String> {
    let mut all: Vec<String> = db
        .scroll(name, 0, 1000, None)
        .points
        .iter()
        .map(|p| format!("{:?} {:?} {:?}", p.id, p.vector, text_of(&p.payload)))
        .collect();
    all.sort();
    all
}

/// A collection with two segments, deleted rows, new payloads and rows in memory.
fn worked() -> Db {
    work(Db::fresh())
}

fn work<F: Fs>(db: Db<F>) -> Db<F> {
    let mut db = db;
    db.create("c", CollectionConfig::new(2, Metric::L2).unwrap())
        .unwrap();
    let first: Vec<Point> = (0..10).map(n_point).collect();
    db.upsert("c", &first).unwrap();
    db.flush().unwrap();
    let second: Vec<Point> = (10..15).map(n_point).collect();
    db.upsert("c", &second).unwrap();
    db.flush().unwrap();
    db.upsert("c", &[n_point(20), n_point(3)]).unwrap();
    db.delete("c", &[num(4), num(12)]).unwrap();
    db.set_payload("c", &[num(5), num(20)], &json("{\"k\":true}"))
        .unwrap();
    db
}

/// After every number of steps that may be performed before the storage fails, opening the
/// database gives back the same.
fn survives(action: fn(&mut Db) -> Result<(), Error>, changes: bool) {
    let mut done = worked();
    let before = contents(&done, "c");
    action(&mut done).unwrap();
    let after = contents(&done, "c");
    if !changes {
        assert_eq!(before, after);
    }
    assert_eq!(contents(&done.reopen(), "c"), after);
    let mut n = 0;
    loop {
        let mut db = worked();
        db.fuse = Some(n);
        let r = action(&mut db);
        db.fuse = None;
        let again = db.reopen();
        let now = contents(&again, "c");
        if r.is_ok() {
            assert_eq!(now, after);
            return;
        }
        if n == 0 {
            assert_eq!(now, before);
        } else {
            assert_eq!(now, after);
        }
        assert_eq!(contents(&again.reopen(), "c"), now);
        n += 1;
    }
}

/// Wherever an operation of the storage fails, opening the database gives back what it kept
/// before or what it was to keep.
fn outlives(action: fn(&mut Db<FaultFs>) -> Result<(), Error>) {
    for torn in [false, true] {
        let mut done = work(Db::open(FaultFs::new(torn).0).unwrap());
        let before = contents(&done, "c");
        action(&mut done).unwrap();
        let after = contents(&done, "c");
        let mut n = 0;
        loop {
            let (fs, left) = FaultFs::new(torn);
            let mut db = work(Db::open(fs).unwrap());
            left.set(Some(n));
            let r = action(&mut db);
            let spent = left.get() == Some(0);
            left.set(None);
            let again = db.reopen();
            let now = contents(&again, "c");
            assert!(now == after || (r.is_err() && now == before), "{n} {torn}");
            assert_eq!(contents(&again.reopen(), "c"), now);
            if r.is_ok() && !spent {
                break;
            }
            n += 1;
        }
        assert!(n > 2);
    }
}

/// Wherever an operation of the storage fails, what was begun can be done later: the next
/// write finishes it, and opening the database gives back both.
fn can_be_finished(action: fn(&mut Db<FaultFs>) -> Result<(), Error>) {
    for torn in [false, true] {
        let mut n = 0;
        loop {
            let (fs, left) = FaultFs::new(torn);
            let mut db = work(Db::open(fs).unwrap());
            left.set(Some(n));
            let r = action(&mut db);
            let spent = left.get() == Some(0);
            left.set(None);
            let kept = contents(&db, "c");
            db.upsert("c", &[n_point(77)]).unwrap();
            db.delete("c", &[num(77)]).unwrap();
            assert!(matches!(db.job.stage, Stage::Done));
            assert_eq!(contents(&db, "c"), kept, "{n} {torn}");
            db.flush().unwrap();
            assert_eq!(contents(&db.reopen(), "c"), kept, "{n} {torn}");
            if r.is_ok() && !spent {
                break;
            }
            n += 1;
        }
        assert!(n > 2);
    }
}

#[test]
fn a_flush_can_be_finished_later() {
    can_be_finished(|db| db.flush());
}

#[test]
fn compacting_can_be_finished_later() {
    can_be_finished(|db| db.compact("c"));
}

#[test]
fn a_write_can_be_finished_later() {
    can_be_finished(|db| db.upsert("c", &[n_point(6), n_point(11), n_point(40)]));
}

#[test]
fn deleting_can_be_finished_later() {
    can_be_finished(|db| {
        db.delete("c", &[num(0), num(1), num(2), num(5), num(6)])
            .map(|_| ())
    });
}

#[test]
fn a_flush_of_nothing_empties_the_log() {
    let mut db = Db::fresh();
    db.create("c", CollectionConfig::new(2, Metric::L2).unwrap())
        .unwrap();
    let last = db.wal.next_lsn() - 1;
    assert!(db.wal.offset() > 0);
    db.flush().unwrap();
    assert_eq!(db.wal.offset(), 0);
    let log = db.fs.open_rw(&FsPath::new("/db/wal.log")).unwrap();
    assert_eq!(log.len().unwrap(), 0);
    assert_eq!(db.db.manifest.last_flushed_lsn, last);
    let db = db.reopen();
    assert_eq!(db.db.manifest.last_flushed_lsn, last);
    assert_eq!(db.wal.next_lsn(), last + 1);
    assert_eq!(db.db.collections(), vec!["c".to_string()]);
}

#[test]
fn a_dropped_collection_stays_dropped_whatever_the_log_holds() {
    let mut db = docs();
    db.upsert("docs", &[pt(num(1), vec![1.0, 0.0, 0.0], "en", 2020)])
        .unwrap();
    db.flush().unwrap();
    db.upsert("docs", &[pt(num(2), vec![0.0, 1.0, 0.0], "en", 2020)])
        .unwrap();
    db.delete("docs", &[num(1)]).unwrap();
    db.drop_collection("docs").unwrap();
    let mut db = Db::open(db.fs).unwrap();
    assert!(db.db.collections().is_empty());
    db.create("docs", CollectionConfig::new(3, Metric::L2).unwrap())
        .unwrap();
    let db = db.reopen();
    assert_eq!(db.count("docs"), 0);
}

#[test]
fn a_write_after_opening_again_is_not_lost() {
    let mut db = docs();
    db.upsert("docs", &[pt(num(1), vec![1.0, 0.0, 0.0], "en", 2020)])
        .unwrap();
    db.flush().unwrap();
    let mut db = db.reopen();
    assert!(db.wal.next_lsn() > db.db.manifest.last_flushed_lsn);
    db.upsert("docs", &[pt(num(2), vec![0.0, 1.0, 0.0], "en", 2020)])
        .unwrap();
    let db = db.reopen();
    assert_eq!(db.count("docs"), 2);
    assert!(db.get("docs", &[num(2)])[0].is_some());
}

#[test]
fn segments_that_have_no_rows_left_are_removed() {
    let mut db = docs();
    for i in 0..5i64 {
        db.upsert("docs", &[pt(num(i), vec![i as f32, 1.0, 0.0], "en", 2020)])
            .unwrap();
        db.flush().unwrap();
    }
    assert_eq!(db.delete("docs", &[num(0), num(2)]).unwrap(), 2);
    let left = &db.db.manifest.collections[0].segments;
    assert_eq!(left, &vec![2, 4, 5]);
    assert_eq!(db.count("docs"), 3);
    let db = db.reopen();
    assert_eq!(db.db.manifest.collections[0].segments, vec![2, 4, 5]);
    assert_eq!(db.count("docs"), 3);
}

fn segment_dirs(db: &Db) -> Vec<String> {
    let mut names: Vec<String> = db
        .fs
        .list_dir(&FsPath::new("/db/segments"))
        .unwrap()
        .iter()
        .map(|p| p.file_name().unwrap().to_string())
        .collect();
    names.sort();
    names
}

#[test]
fn directories_are_those_of_the_manifest() {
    let mut db = docs();
    for i in 0..5i64 {
        db.upsert("docs", &[pt(num(i), vec![i as f32, 1.0, 0.0], "en", 2020)])
            .unwrap();
        db.flush().unwrap();
    }
    assert_eq!(segment_dirs(&db).len(), 5);
    db.delete("docs", &[num(0), num(2)]).unwrap();
    assert_eq!(segment_dirs(&db), vec!["seg-2", "seg-4", "seg-5"]);
    db.drop_collection("docs").unwrap();
    assert!(segment_dirs(&db).is_empty());
}

#[test]
fn compacting_leaves_one_clean_segment() {
    let mut db = docs();
    let all: Vec<Point> = (0..8i64)
        .map(|i| pt(num(i), vec![i as f32, 1.0, 0.0], "en", 2020))
        .collect();
    db.upsert("docs", &all).unwrap();
    db.flush().unwrap();
    db.delete("docs", &[num(0), num(1)]).unwrap();
    assert_eq!(db.set_payload("docs", &[num(5)], &string("new")).unwrap(), 1);
    let view = &db.db.collection("docs").unwrap().view;
    assert_eq!(view.immutables.len(), 1);
    assert_eq!(view.immutables[0].total(), 8);
    assert_eq!(view.immutables[0].overlay_entries().len(), 1);

    db.compact("docs").unwrap();
    let view = &db.db.collection("docs").unwrap().view;
    assert_eq!(view.immutables.len(), 1);
    assert_eq!(view.immutables[0].total(), 6);
    assert_eq!(view.immutables[0].alive(), 6);
    assert!(view.immutables[0].overlay_entries().is_empty());
    assert_eq!(view.mutable.total(), 0);
    assert_eq!(db.db.manifest.collections[0].segments, vec![2]);
    assert_eq!(segment_dirs(&db), vec!["seg-2"]);
    let five = db.get("docs", &[num(5)])[0].clone().unwrap();
    assert_eq!(text_of(&five.payload), text_of(&Some(string("new"))));

    db.delete("docs", &(2..8).map(num).collect::<Vec<_>>())
        .unwrap();
    db.compact("docs").unwrap();
    assert!(db.db.manifest.collections[0].segments.is_empty());
    assert!(segment_dirs(&db).is_empty());
    match db.compact("other") {
        Err(Error::CollectionNotFound(name)) => assert_eq!(name, "other"),
        other => panic!("{other:?}"),
    }
}

#[test]
fn what_cannot_be_turned_into_bytes_is_stored_later() {
    fn refuse(_: &Manifest) -> Result<Vec<u8>, String> {
        Err("no".to_string())
    }
    let mut db = Db::fresh();
    let failing = Format {
        manifest_bytes: refuse as ManifestBytes,
        ..format()
    };
    let config = CollectionConfig::new(3, Metric::Cosine).unwrap();
    let op = db.db.create_collection("docs", config).unwrap();
    let (fs, inner, wal, job) = (&mut db.fs, &mut db.db, &mut db.wal, &mut db.job);
    match failing.write(fs, &db.root, inner, wal, job, &op, &kernel()) {
        Err(Error::Serde(text)) => assert_eq!(text, "no"),
        other => panic!("{other:?}"),
    }
    assert_eq!(db.db.collections(), vec!["docs"]);
    db.flush().unwrap();
    assert_eq!(db.reopen().db.collections(), vec!["docs"]);
}

#[test]
fn an_unflushed_write_outlives_a_flush_and_a_drop() {
    let mut db = docs();
    db.upsert("docs", &[pt(num(1), vec![1.0, 0.0, 0.0], "en", 2020)])
        .unwrap();
    db.flush().unwrap();
    db.upsert("docs", &[pt(num(2), vec![0.0, 1.0, 0.0], "en", 2020)])
        .unwrap();
    let mut db = db.reopen();
    assert_eq!(db.count("docs"), 2);
    assert!(db.get("docs", &[num(2)])[0].is_some());
    db.drop_collection("docs").unwrap();
    assert!(db.reopen().db.collections().is_empty());
}

#[test]
fn an_identifier_that_is_named_twice_is_deleted_once() {
    let mut db = docs();
    let point = pt(num(1), vec![1.0, 0.0, 0.0], "en", 2020);
    db.upsert("docs", &[point]).unwrap();
    db.flush().unwrap();
    assert_eq!(db.delete("docs", &[num(1), num(1)]).unwrap(), 1);
    assert_eq!(db.count("docs"), 0);
}

#[test]
fn a_torn_write_does_not_take_the_next_one_with_it() {
    let (fs, left) = FaultFs::new(true);
    let mut db = Db::open(fs).unwrap();
    db.create("c", CollectionConfig::new(2, Metric::L2).unwrap())
        .unwrap();
    let before = db.wal.offset();
    left.set(Some(1));
    db.upsert("c", &[n_point(1)]).unwrap_err();
    left.set(None);
    assert_eq!(db.wal.offset(), before);
    let log = db.fs.open_rw(&FsPath::new("/db/wal.log")).unwrap();
    assert!(log.len().unwrap() > before, "a part of the frame is there");
    db.upsert("c", &[n_point(2)]).unwrap();
    let db = db.reopen();
    assert!(db.db.recovery_clean());
    assert_eq!(db.count("c"), 1);
    assert!(db.get("c", &[num(2)])[0].is_some());
}

#[test]
fn an_operation_that_cannot_be_applied_is_not_logged() {
    let mut db = docs();
    let before = db.wal.offset();
    let op = Op::Delete {
        collection: "gone".to_string(),
        ids: vec![num(1)],
    };
    match db.run(op) {
        Err(Error::CollectionNotFound(n)) => assert_eq!(n, "gone"),
        other => panic!("{other:?}"),
    }
    assert_eq!(db.wal.offset(), before);
    assert!(db.reopen().db.recovery_clean());
}

#[test]
fn a_damaged_segment_is_refused() {
    let mut db = docs();
    db.upsert("docs", &[pt(num(1), vec![1.0, 0.0, 0.0], "en", 2020)])
        .unwrap();
    db.flush().unwrap();
    db.upsert("docs", &[pt(num(1), vec![1.0, 0.0, 0.0], "en", 2020)])
        .unwrap();
    let path = FsPath::new("/db/segments/seg-1/dels.bin");
    let saved = read_all(db.fs.open_rw(&path).unwrap()).unwrap();
    // Row 7 is marked as deleted, and there is no such row.
    let marked: Vec<u8> = saved[..saved.len() - 2].iter().copied().chain([7, 0]).collect();
    db.fs.open_rw(&path).unwrap().write_at(&marked, 0).unwrap();
    match Db::open(db.fs).err() {
        Some(Error::Invalid(vectordb::error::Invalid::SegmentDamaged(1))) => {}
        other => panic!("{other:?}"),
    }
}

#[test]
fn an_index_that_is_shorter_or_longer_is_refused() {
    let config = CollectionConfig::new(2, Metric::L2).unwrap();
    let made = || {
        let mut db = Db::fresh();
        db.create("c", config.with_index(IndexKind::default())).unwrap();
        let points: Vec<Point> = (0..20).map(n_point).collect();
        db.upsert("c", &points).unwrap();
        db.flush().unwrap();
        db
    };
    let db = made();
    let path = FsPath::new("/db/segments/seg-1").join(Part::Index.name());
    for longer in [true, false] {
        let mut db = made();
        let f = db.fs.open_rw(&path).unwrap();
        let len = f.len().unwrap();
        if longer {
            f.write_at(&[0, 0], len).unwrap();
        } else {
            f.truncate(len - 1).unwrap();
        }
        let e = Db::open(db.fs).err().unwrap();
        let said = if longer {
            matches!(
                e,
                Error::Invalid(vectordb::error::Invalid::IndexTrailing(2))
            )
        } else {
            matches!(e, Error::Invalid(vectordb::error::Invalid::IndexTruncated))
        };
        assert!(said, "{e:?}");
    }
    assert_eq!(db.reopen().count("c"), 20);
}

#[test]
fn numbers_that_are_used_up_are_noticed() {
    for (last, segments) in [(u64::MAX, vec![]), (0, vec![u64::MAX])] {
        let mut fs = MemoryFs::new();
        let manifest = Manifest {
            version: 1,
            last_flushed_lsn: last,
            collections: vec![CollectionEntry {
                name: "c".to_string(),
                config: CollectionConfig::new(1, Metric::L2).unwrap(),
                segments,
            }],
        };
        let path = FsPath::new("/db/manifest").with_extension("json");
        let bytes = manifest_bytes(&manifest).unwrap();
        fs.create(&path).unwrap().write_at(&bytes, 0).unwrap();
        match Db::open(fs).err() {
            Some(Error::Invalid(vectordb::error::Invalid::NumbersUsedUp)) => {}
            other => panic!("{other:?}"),
        }
    }
}

#[test]
fn a_log_that_others_shortened_is_appended_to() {
    let mut db = docs();
    let log = db.fs.open_rw(&FsPath::new("/db/wal.log")).unwrap();
    log.truncate(3).unwrap();
    let points = [pt(num(1), vec![1.0, 0.0, 0.0], "en", 2020)];
    db.upsert("docs", &points).unwrap();
    assert_eq!(db.count("docs"), 1);
    let log = db.fs.open_rw(&FsPath::new("/db/wal.log")).unwrap();
    let mut len = [0u8; 4];
    log.read_at(&mut len, 3).unwrap();
    let n = u32::from_le_bytes(len) as u64;
    assert_eq!(log.len().unwrap(), 3 + 8 + n);
}

#[test]
fn a_flush_outlives_any_failure() {
    outlives(|db| db.flush());
}

#[test]
fn compacting_outlives_any_failure() {
    outlives(|db| db.compact("c"));
}

#[test]
fn writing_outlives_any_failure() {
    outlives(|db| db.upsert("c", &[n_point(6), n_point(11), n_point(40)]));
}

#[test]
fn rebuilding_outlives_any_failure() {
    outlives(|db| {
        db.delete("c", &[num(0), num(1), num(2), num(5), num(6)])
            .map(|_| ())
    });
}

#[test]
fn payloads_outlive_any_failure() {
    outlives(|db| {
        db.set_payload("c", &[num(2), num(14), num(20)], &json("[1,2]"))
            .map(|_| ())
    });
}

#[test]
fn a_flush_survives_after_each_step() {
    survives(|db| db.flush(), false);
}

#[test]
fn compacting_survives_after_each_step() {
    survives(|db| db.compact("c"), false);
}

#[test]
fn writing_survives_after_each_step() {
    survives(
        |db| db.upsert("c", &[n_point(6), n_point(11), n_point(40)]),
        true,
    );
}

#[test]
fn deleting_survives_after_each_step() {
    survives(|db| db.delete("c", &[num(1), num(13), num(20)]).map(|_| ()), true);
}

#[test]
fn rebuilding_survives_after_each_step() {
    survives(
        |db| {
            db.delete("c", &[num(0), num(1), num(2), num(5), num(6)])
                .map(|_| ())
        },
        true,
    );
}

#[test]
fn payloads_survive_after_each_step() {
    survives(
        |db| {
            db.set_payload("c", &[num(2), num(14), num(20)], &json("[1,2]"))
                .map(|_| ())
        },
        true,
    );
}

#[test]
fn a_null_payload_is_none_once_it_was_stored() {
    let mut db = Db::fresh();
    db.create("c", CollectionConfig::new(1, Metric::Dot).unwrap())
        .unwrap();
    db.upsert("c", &[Point::new(num(1), bits(&[1.0]), Some(Json::Null))])
        .unwrap();
    assert!(db.get("c", &[num(1)])[0].as_ref().unwrap().payload.is_some());
    db.flush().unwrap();
    assert!(db.get("c", &[num(1)])[0].as_ref().unwrap().payload.is_none());
}

#[test]
fn a_record_of_a_missing_collection_stops_the_log() {
    let mut db = Db::fresh();
    let op = Op::Delete {
        collection: "gone".to_string(),
        ids: vec![num(1)],
    };
    let records = vec![WalRecord { lsn: 9, op }];
    let r = db.db.recover(&records, &kernel());
    assert_eq!(r.replayed, 0);
    match r.stopped {
        Some(Error::Invalid(vectordb::error::Invalid::ReplayMissing { name, lsn })) => {
            assert_eq!(name, "gone");
            assert_eq!(lsn, 9);
        }
        other => panic!("{other:?}"),
    }
}

#[test]
fn records_below_the_floor_are_not_replayed() {
    let manifest = Manifest {
        version: 1,
        last_flushed_lsn: 5,
        collections: Vec::new(),
    };
    let mut db =
        Database::assemble(DatabaseOptions::default(), manifest, Vec::new(), true).unwrap();
    let make = |name: &str, lsn: u64| WalRecord {
        lsn,
        op: Op::CreateCollection {
            name: name.to_string(),
            config: CollectionConfig::new(1, Metric::L2).unwrap(),
        },
    };
    let r = db.recover(&vec![make("a", 5), make("b", 6)], &kernel());
    assert!(r.stopped.is_none());
    assert_eq!(r.replayed, 2);
    assert_eq!(db.collections(), vec!["b".to_string()]);
    assert_eq!(r.steps.len(), 1);
}

#[test]
fn assembling_checks_the_dimension() {
    let mut db = docs();
    db.upsert("docs", &[pt(num(1), vec![1.0, 0.0, 0.0], "en", 2020)])
        .unwrap();
    db.flush().unwrap();
    let Db { mut fs, root, db, .. } = db;
    let seg = format().open_segment(&mut fs, &root, 1).unwrap();
    let mut manifest = db.manifest.copy();
    manifest.collections[0].config.dim = 4;
    let r = Database::assemble(
        DatabaseOptions::default(),
        manifest,
        vec![vec![seg]],
        true,
    );
    assert!(matches!(
        r.err(),
        Some(Error::DimensionMismatch {
            expected: 4,
            got: 3
        })
    ));
}

#[test]
fn large_segments_are_flushed_without_being_asked_to() {
    let mut db = Db::fresh();
    db.db.options = DatabaseOptions {
        auto_flush_points: 2,
        auto_flush_bytes: 1 << 20,
    };
    db.create("c", CollectionConfig::new(2, Metric::L2).unwrap())
        .unwrap();
    db.upsert("c", &[n_point(1)]).unwrap();
    assert!(!db.has("/db/segments/seg-1"));
    db.upsert("c", &[n_point(2)]).unwrap();
    assert!(db.has("/db/segments/seg-1"));
    assert_eq!(db.count("c"), 2);
}

#[test]
fn names_and_errors_of_collections() {
    let mut db = Db::fresh();
    let config = CollectionConfig::new(1, Metric::L2).unwrap();
    assert!(matches!(
        db.create("", config),
        Err(Error::Invalid(vectordb::error::Invalid::EmptyName))
    ));
    db.create("b", config).unwrap();
    db.create("a", config).unwrap();
    assert_eq!(db.db.collections(), vec!["a".to_string(), "b".to_string()]);
    assert!(matches!(
        db.drop_collection("c"),
        Err(Error::CollectionNotFound(_))
    ));
    assert!(matches!(
        db.compact("c"),
        Err(Error::CollectionNotFound(_))
    ));
    assert!(matches!(
        CollectionConfig::new(0, Metric::L2),
        Err(Error::Invalid(vectordb::error::Invalid::ZeroDimension))
    ));
}

#[test]
fn queries_that_are_refused() {
    let mut db = docs();
    db.upsert("docs", &[pt(num(1), vec![1.0, 0.0, 0.0], "en", 2020)])
        .unwrap();
    use_invalid(&db);
}

fn use_invalid(db: &Db) {
    let v = || vector(&[1.0, 0.0, 0.0]);
    assert!(matches!(
        db.query("docs", &v().top_k(0)),
        Err(Error::Invalid(vectordb::error::Invalid::ZeroTopK))
    ));
    assert!(matches!(
        db.query("docs", &Query::nearest_to(num(5))),
        Err(Error::Invalid(vectordb::error::Invalid::QueryIdNotFound))
    ));
    let mut both = v();
    both.id = Some(num(1));
    assert!(matches!(
        db.query("docs", &both),
        Err(Error::Invalid(vectordb::error::Invalid::VectorOrId))
    ));
    assert!(matches!(
        db.query("docs", &vector(&[1.0])),
        Err(Error::DimensionMismatch {
            expected: 3,
            got: 1
        })
    ));
    assert!(db.query("docs", &Query::nearest_to(num(1))).unwrap().is_empty());
}

#[test]
fn thresholds_payloads_and_vectors_of_results() {
    let mut db = docs();
    db.upsert(
        "docs",
        &[
            pt(num(1), vec![1.0, 0.0, 0.0], "en", 2020),
            pt(num(2), vec![0.0, 1.0, 0.0], "en", 2021),
        ],
    )
    .unwrap();
    let q = vector(&[1.0, 0.0, 0.0]).threshold(0.5f32.to_bits());
    let hits = db.query("docs", &q).unwrap();
    assert_eq!(hits.len(), 1);
    assert!(hits[0].payload.is_some());
    assert!(hits[0].vector.is_none());
    let q = vector(&[1.0, 0.0, 0.0]).with_payload(false).with_vector(true);
    let hits = db.query("docs", &q).unwrap();
    assert_eq!(hits.len(), 2);
    assert_eq!(f32::from_bits(hits[0].score), 1.0);
    assert_eq!(f32::from_bits(hits[1].score), 0.0);
    assert!(hits[0].payload.is_none());
    assert_eq!(floats(hits[1].vector.as_ref().unwrap()), vec![0.0, 1.0, 0.0]);
    let near = db.query("docs", &Query::nearest_to(num(1))).unwrap();
    assert_eq!(near.len(), 1);
    assert_eq!(near[0].id, num(2));
}

// ---------------------------------------------------------------- filters

#[test]
fn filters_narrow_and_order_correctly() {
    let mut db = Db::fresh();
    db.create("c", CollectionConfig::new(2, Metric::L2).unwrap())
        .unwrap();
    let mut pts = Vec::new();
    for i in 0..50i64 {
        let lang = if i % 3 == 0 { "en" } else { "zh" };
        let payload = object(vec![
            ("lang", Value::from(lang)),
            ("year", Value::from(2000 + i)),
            ("tags", Value::from(vec!["t1", "t2"])),
        ]);
        pts.push(Point::new(
            num(i),
            bits(&[i as f32, (i % 7) as f32]),
            Some(from_value(&payload)),
        ));
    }
    db.upsert("c", &pts).unwrap();

    let q = [10.0f32, 3.0];
    let expected: Vec<(i64, f32)> = {
        let mut all: Vec<(i64, f32)> = pts
            .iter()
            .filter(|p| to_value(p.payload.as_ref().unwrap())["lang"] == Value::from("en"))
            .map(|p| {
                let v = floats(&p.vector);
                let d = (v[0] - q[0]).powi(2) + (v[1] - q[1]).powi(2);
                (p.id.as_num().unwrap(), d)
            })
            .collect();
        all.sort_by(|a, b| a.1.total_cmp(&b.1));
        all
    };

    let hits = db
        .query(
            "c",
            &vector(&q)
                .top_k(5)
                .filter(Condition::matches("lang", string("en"))),
        )
        .unwrap();
    assert_eq!(hits.len(), 5.min(expected.len()));
    for (hit, exp) in hits.iter().zip(expected.iter()) {
        assert_eq!(hit.id.as_num().unwrap(), exp.0);
        let s = f32::from_bits(hit.score);
        assert!((s - exp.1).abs() < 1e-3, "{} vs {}", s, exp.1);
    }

    let hits = db
        .query(
            "c",
            &vector(&q).top_k(50).filter(Condition::all(vec![
                Condition::range(
                    "year",
                    None,
                    Some(2010.0f64.to_bits()),
                    None,
                    Some(2030.0f64.to_bits()),
                ),
                Condition::matches("tags", string("t1")),
                !Condition::matches("lang", string("zh")),
            ])),
        )
        .unwrap();
    let expect_ids: Vec<i64> = (10..=30).filter(|i| i % 3 == 0).collect();
    let got_ids: Vec<i64> = hits.iter().filter_map(|h| h.id.as_num()).collect();
    assert_eq!(got_ids, expect_ids, "got {got_ids:?} want {expect_ids:?}");
    for h in &hits {
        assert!(
            expect_ids.contains(&h.id.as_num().unwrap()),
            "unexpected {:?}",
            h.id
        );
    }

    let hits = db
        .query(
            "c",
            &vector(&q).top_k(3).filter(Condition::HasId {
                ids: vec![num(5), num(41)],
            }),
        )
        .unwrap();
    assert_eq!(hits.len(), 2);
    for h in &hits {
        assert!(h.id.as_num() == Some(5) || h.id.as_num() == Some(41));
    }
}

#[test]
fn filtered_query_after_flush_and_delete() {
    let mut db = Db::fresh();
    db.create("c", CollectionConfig::new(2, Metric::Cosine).unwrap())
        .unwrap();
    let group = |g: &str| Some(from_value(&object(vec![("g", Value::from(g))])));
    let mut pts = Vec::new();
    for i in 0..10i64 {
        pts.push(Point::new(
            num(i),
            bits(&[1.0, i as f32]),
            group(if i < 5 { "a" } else { "b" }),
        ));
    }
    db.upsert("c", &pts).unwrap();
    db.flush().unwrap();
    db.delete("c", &[num(0), num(5)]).unwrap();
    db.upsert("c", &[Point::new(num(100), bits(&[1.0, 0.5]), group("a"))])
        .unwrap();

    let hits = db
        .query(
            "c",
            &vector(&[1.0, 0.0])
                .top_k(10)
                .filter(Condition::matches("g", string("a"))),
        )
        .unwrap();
    let ids: Vec<i64> = hits.iter().filter_map(|h| h.id.as_num()).collect();
    assert!(!ids.contains(&0), "a deleted point is not found");
    assert_eq!(ids.len(), 5);
    assert!(ids.contains(&100));
}

// ---------------------------------------------------------------- graph indexes

const DIM: usize = 64;

fn lcg_vec(dim: usize, seed: u64) -> Vec<f32> {
    let mut s = seed
        .wrapping_mul(6364136223846793005)
        .wrapping_add(1442695040888963407);
    (0..dim)
        .map(|_| {
            s = s
                .wrapping_mul(6364136223846793005)
                .wrapping_add(1442695040888963407);
            (((s >> 33) & 0xffff) as f32 / 65535.0) * 2.0 - 1.0
        })
        .collect()
}

fn setup(dim: usize) -> Db {
    let mut db = Db::fresh();
    db.create("h", CollectionConfig::new(dim, Metric::Cosine).unwrap())
        .unwrap();
    db.create(
        "f",
        CollectionConfig::new(dim, Metric::Cosine)
            .unwrap()
            .with_index(IndexKind::Flat),
    )
    .unwrap();
    db
}

fn points(n: usize, dim: usize, group_every: usize) -> Vec<Point> {
    (0..n)
        .map(|i| {
            let g = if group_every > 0 && i % group_every == 0 {
                "a"
            } else {
                "b"
            };
            Point::new(
                num(i as i64),
                bits(&lcg_vec(dim, i as u64 + 1)),
                Some(from_value(&object(vec![("g", Value::from(g))]))),
            )
        })
        .collect()
}

fn ids_of(hits: &[ScoredPoint]) -> Vec<i64> {
    hits.iter().filter_map(|h| h.id.as_num()).collect()
}

fn recall_of(got: &[i64], truth: &[i64], k: usize) -> f32 {
    let g: std::collections::HashSet<i64> = got.iter().copied().take(k).collect();
    let t: std::collections::HashSet<i64> = truth.iter().copied().take(k).collect();
    g.intersection(&t).count() as f32 / t.len().max(1) as f32
}

fn avg_recall(db: &Db, queries: &[Vec<f32>], k: usize, filter: Option<&str>) -> f32 {
    let mut total = 0.0f32;
    for q in queries {
        let make = || {
            let q = vector(q).top_k(k);
            match filter {
                Some(g) => q.filter(Condition::matches("g", string(g))),
                None => q,
            }
        };
        total += recall_of(
            &ids_of(&db.query("h", &make()).unwrap()),
            &ids_of(&db.query("f", &make()).unwrap()),
            k,
        );
    }
    total / queries.len() as f32
}

fn queries(n: usize, dim: usize) -> Vec<Vec<f32>> {
    (0..n).map(|i| lcg_vec(dim, 100_000 + i as u64)).collect()
}

#[test]
fn recall_threshold_random_data() {
    let mut db = setup(DIM);
    let pts = points(3000, DIM, 0);
    db.upsert("h", &pts).unwrap();
    db.upsert("f", &pts).unwrap();
    db.flush().unwrap();
    let r = avg_recall(&db, &queries(30, DIM), 10, None);
    assert!(r >= 0.97, "recall@10 = {r:.3}");
    let db = db.reopen();
    let r = avg_recall(&db, &queries(10, DIM), 10, None);
    assert!(r >= 0.97, "recall@10 after reopen = {r:.3}");
}

#[test]
fn incremental_batches_match_single_batch() {
    let mut db = setup(DIM);
    let pts = points(2400, DIM, 0);
    for chunk in pts.chunks(600) {
        db.upsert("h", chunk).unwrap();
        db.upsert("f", chunk).unwrap();
        db.flush().unwrap();
    }
    let r = avg_recall(&db, &queries(20, DIM), 10, None);
    assert!(r >= 0.97, "multi-segment recall@10 = {r:.3}");
}

#[test]
fn delete_heavy_triggers_rebuild_and_keeps_recall() {
    let mut db = setup(DIM);
    let pts = points(2000, DIM, 0);
    db.upsert("h", &pts).unwrap();
    db.upsert("f", &pts).unwrap();
    db.flush().unwrap();

    let victims: Vec<ExternalId> = (0..2000).step_by(5).map(ExternalId::Num).collect();
    assert_eq!(victims.len(), 400);
    db.delete("h", &victims).unwrap();
    db.delete("f", &victims).unwrap();
    assert_eq!(db.count("h"), 1600);
    let r = avg_recall(&db, &queries(20, DIM), 10, None);
    assert!(r >= 0.95, "recall@10 after 20% delete = {r:.3}");

    let db = db.reopen();
    assert_eq!(db.count("h"), 1600);
    let r = avg_recall(&db, &queries(10, DIM), 10, None);
    assert!(r >= 0.95, "recall@10 after reopen = {r:.3}");
}

#[test]
fn delete_over_threshold_rebuilds_segment() {
    let mut db = setup(DIM);
    let pts = points(1000, DIM, 0);
    db.upsert("h", &pts).unwrap();
    db.flush().unwrap();

    let victims: Vec<ExternalId> = (0..1000).step_by(2).map(ExternalId::Num).collect();
    assert_eq!(victims.len(), 500);
    db.delete("h", &victims).unwrap();
    assert_eq!(db.count("h"), 500);

    let segs: Vec<FsPath> = db
        .fs
        .list_dir(&FsPath::new("/db/segments"))
        .unwrap()
        .into_iter()
        .filter(|p| p.file_name().is_some_and(|n| n.starts_with("seg-")))
        .collect();
    assert_eq!(segs.len(), 1, "segments: {segs:?}");

    db.upsert("f", &pts).unwrap();
    db.flush().unwrap();
    db.delete("f", &victims).unwrap();
    let r = avg_recall(&db, &queries(20, DIM), 10, None);
    assert!(r >= 0.95, "recall@10 after 50% delete+rebuild = {r:.3}");
}

#[test]
fn filtered_recall_by_selectivity() {
    let mut db = setup(DIM);
    let pts = points(3000, DIM, 10);
    db.upsert("h", &pts).unwrap();
    db.upsert("f", &pts).unwrap();
    db.flush().unwrap();

    let r10 = avg_recall(&db, &queries(20, DIM), 10, Some("b"));
    assert!(r10 >= 0.95, "10% selectivity recall@10 = {r10:.3}");
    let r1 = avg_recall(&db, &queries(20, DIM), 10, Some("a"));
    assert!(r1 >= 0.85, "1% selectivity recall@10 = {r1:.3}");
}

// ---------------------------------------------------------------- recovery

fn triple(id: i64) -> Point {
    let payload = object(vec![("n", Value::from(id))]);
    Point::new(
        num(id),
        bits(&[id as f32, 0.0, 1.0]),
        Some(from_value(&payload)),
    )
}

fn with_c() -> Db {
    let mut db = Db::fresh();
    db.create("c", CollectionConfig::new(3, Metric::L2).unwrap())
        .unwrap();
    db
}

#[test]
fn truncated_wal_tail_recovers_prefix() {
    let mut db = with_c();
    db.upsert("c", &[triple(1)]).unwrap();
    db.upsert("c", &[triple(2)]).unwrap();

    let wal = FsPath::new("/db/wal.log");
    let f = db.fs.open_rw(&wal).unwrap();
    let len = f.len().unwrap();
    f.truncate(len - 1).unwrap();

    let db = db.reopen();
    assert!(!db.db.recovery_clean());
    let n = db.count("c");
    assert!(n == 1 || n == 2, "unexpected count {n}");
    let pts = db.get("c", &[num(1), num(2)]);
    for p in pts.iter().flatten() {
        let got = db.get("c", std::slice::from_ref(&p.id));
        let got = got[0].as_ref().unwrap();
        assert_eq!(got.vector, p.vector);
        assert_eq!(text_of(&got.payload), text_of(&p.payload));
    }
}

#[test]
fn orphan_segment_dirs_are_gc_ed() {
    let mut db = with_c();
    db.upsert("c", &[triple(1)]).unwrap();
    db.flush().unwrap();

    db.fs
        .create_dir_all(&FsPath::new("/db/segments/seg-99"))
        .unwrap();
    db.fs
        .create_dir_all(&FsPath::new("/db/segments/seg-1.tmp"))
        .unwrap();
    let junk = FsPath::new("/db/segments/seg-99/junk.bin");
    db.fs.create(&junk).unwrap().write_at(b"x", 0).unwrap();

    let db = db.reopen();
    assert!(db.db.recovery_clean());
    assert!(db.count("c") == 1);
    assert!(!db.has("/db/segments/seg-99"));
    assert!(!db.has("/db/segments/seg-1.tmp"));
    assert!(db.has("/db/segments/seg-1"));
    assert!(db.has("/db/segments/seg-1/meta.json"));
}

#[test]
fn upsert_over_immutable_after_flush() {
    let mut db = with_c();
    db.upsert("c", &[triple(1), triple(2)]).unwrap();
    db.flush().unwrap();

    db.upsert(
        "c",
        &[Point::new(
            num(1),
            bits(&[9.0, 9.0, 9.0]),
            Some(json("{\"n\":\"upd\"}")),
        )],
    )
    .unwrap();
    assert_eq!(db.count("c"), 2);
    let hits = db.query("c", &vector(&[9.0, 9.0, 9.0]).top_k(1)).unwrap();
    assert_eq!(hits[0].id, num(1));

    assert_eq!(db.delete("c", &[num(2)]).unwrap(), 1);
    assert_eq!(db.count("c"), 1);

    db.set_payload("c", &[num(1)], &json("{\"k\":1}")).unwrap();
    let got = db.get("c", &[num(1)]);
    assert_eq!(
        text_of(&got[0].as_ref().unwrap().payload),
        Some("{\"k\":1}".to_string())
    );

    let db = db.reopen();
    assert_eq!(db.count("c"), 1);
    let got = db.get("c", &[num(1)]);
    let p = got[0].as_ref().unwrap();
    assert_eq!(text_of(&p.payload), Some("{\"k\":1}".to_string()));
    assert_eq!(floats(&p.vector), vec![9.0, 9.0, 9.0]);
}

#[test]
fn reopen_replays_payload_and_delete_ops() {
    let mut db = with_c();
    db.upsert("c", &[triple(1), triple(2), triple(3)]).unwrap();
    db.delete("c", &[num(3)]).unwrap();
    db.clear_payload("c", &[num(2)]).unwrap();
    let db = db.reopen();
    assert_eq!(db.count("c"), 2);
    let pts = db.get("c", &[num(2), num(3)]);
    assert!(pts[0].as_ref().unwrap().payload.is_none());
    assert!(pts[1].is_none());
}

#[test]
fn a_job_names_its_steps_in_order() {
    let mut db = with_c();
    let points: Vec<Point> = (0..10).map(triple).collect();
    db.upsert("c", &points).unwrap();
    db.flush().unwrap();
    let ids: Vec<ExternalId> = (0..4).map(num).collect();
    let op = db.db.collection("c").unwrap().delete(&ids).unwrap();
    let path = db.root.join("wal.log");
    let backend = db.fs.open_rw(&path).unwrap();
    let mut job = db
        .db
        .write(&mut db.wal, backend, &op, &codec(), &kernel())
        .unwrap();
    assert_eq!(job.done.count, 4);
    assert!(matches!(job.stage, Stage::Write));
    assert!(matches!(job.step(), Some(Step::WriteTombstones(1, _))));
    db.db
        .proceed(&mut job, db.wal.next_lsn(), &kernel())
        .unwrap();
    let mut seen = Vec::new();
    while let Some(step) = job.step() {
        seen.push(match step {
            Step::WriteSegment(p) => format!("segment {} {}", p.meta.seg_id, p.meta.count),
            Step::WriteIndex(id, _) => format!("index {id}"),
            Step::SaveManifest(m) => format!("manifest {:?}", m.collections[0].segments),
            Step::RemoveSegment(id) => format!("remove {id}"),
            _ => "other".to_string(),
        });
        db.db
            .proceed(&mut job, db.wal.next_lsn(), &kernel())
            .unwrap();
    }
    assert_eq!(
        seen,
        vec!["segment 2 6", "index 2", "manifest [2]", "remove 1"]
    );
    assert!(matches!(job.stage, Stage::Done));
    assert_eq!(db.count("c"), 6);
}

#[test]
fn a_write_that_is_not_logged_is_not_applied() {
    let mut db = with_c();
    let op = db.db.collection("c").unwrap().upsert(&[triple(1)]).unwrap();
    let refusing = Codec {
        encode: |_r: &WalRecord| -> Result<Vec<u8>, String> { Err("no".to_string()) },
        decode,
    };
    let path = db.root.join("wal.log");
    let backend = db.fs.open_rw(&path).unwrap();
    let r = db
        .db
        .write(&mut db.wal, backend, &op.unwrap(), &refusing, &kernel());
    assert!(matches!(r.err(), Some(Error::Serde(_))));
    assert_eq!(db.count("c"), 0);
}

// ---------------------------------------------------------------- the log

fn wal_with_records() -> (MemoryFs, Vec<u64>) {
    let mut fs = MemoryFs::new();
    let backend = fs.create(&FsPath::new("/wal.log")).unwrap();
    let (mut wal, _) = Wal::open(backend, 0, &codec()).unwrap();
    let ops = [
        Op::CreateCollection {
            name: "c".to_string(),
            config: CollectionConfig::new(4, Metric::Dot).unwrap(),
        },
        Op::Upsert {
            collection: "c".to_string(),
            points: vec![Point::new(
                num(1),
                bits(&[0.1, 0.2, 0.3, 0.4]),
                Some(json("{\"k\":1}")),
            )],
        },
    ];
    let lsns = ops
        .iter()
        .map(|op| wal.append(backend, op, &codec()).unwrap())
        .collect();
    (fs, lsns)
}

#[test]
fn append_then_replay() {
    let (mut fs, lsns) = wal_with_records();
    let backend = fs.open_rw(&FsPath::new("/wal.log")).unwrap();
    let (_, report) = Wal::open(backend, 0, &codec()).unwrap();
    assert_eq!(report.records.len(), 2);
    assert_eq!(report.records[0].lsn, lsns[0]);
    assert_eq!(report.next_lsn, lsns[1] + 1);
    assert!(report.corrupt_tail.is_none());
}

#[test]
fn corrupt_tail_truncated_and_floor_respected() {
    let (mut fs, lsns) = wal_with_records();
    let path = FsPath::new("/wal.log");
    let f = fs.open_rw(&path).unwrap();
    let len = f.len().unwrap();
    f.truncate(len - 1).unwrap();

    let backend = fs.open_rw(&path).unwrap();
    let (_, report) = Wal::open(backend, 100, &codec()).unwrap();
    assert_eq!(report.records.len(), 1);
    assert_eq!(report.next_lsn, 100);
    assert!(report.corrupt_tail.is_some());
    assert_eq!(lsns.len(), 2);

    let backend = fs.open_rw(&path).unwrap();
    let (mut wal, _) = Wal::open(backend, 100, &codec()).unwrap();
    wal.append(
        backend,
        &Op::DropCollection {
            name: "c".to_string(),
        },
        &codec(),
    )
    .unwrap();
}

#[test]
fn crc_mismatch_detected() {
    let (mut fs, _) = wal_with_records();
    let path = FsPath::new("/wal.log");
    let f = fs.open_rw(&path).unwrap();
    let len = f.len().unwrap() as usize;
    let mut buf = vec![0u8; len];
    f.read_at(&mut buf, 0).unwrap();
    let last = len - 1;
    buf[last] ^= 0xff;
    f.write_at(&buf, 0).unwrap();

    let backend = fs.open_rw(&path).unwrap();
    let (_, report) = Wal::open(backend, 0, &codec()).unwrap();
    assert_eq!(report.records.len(), 1);
    assert!(report.corrupt_tail.is_some());
}

/// A log of these bytes: what is wrong with its tail, and where.
fn fault_of(b: &[u8]) -> Option<(u64, FrameFault)> {
    let mut fs = MemoryFs::new();
    let f = fs.create(&FsPath::new("/wal.log")).unwrap();
    f.append(b).unwrap();
    let (_, report) = Wal::open(f, 0, &codec()).unwrap();
    let end = report.corrupt_tail.as_ref().map(|t| t.0);
    assert_eq!(f.len().unwrap(), end.unwrap_or(b.len() as u64));
    report.corrupt_tail
}

fn frame(body: &[u8], crc: u32) -> Vec<u8> {
    let mut b = (body.len() as u32).to_le_bytes().to_vec();
    b.extend_from_slice(&crc.to_le_bytes());
    b.extend_from_slice(body);
    b
}

#[test]
fn faults_of_frames() {
    assert!(fault_of(&[]).is_none());
    assert!(matches!(
        fault_of(&[1, 2, 3]),
        Some((0, FrameFault::TruncatedHeader))
    ));
    assert!(matches!(
        fault_of(&[0xff, 0xff, 0xff, 0xff, 0, 0, 0, 0]),
        Some((0, FrameFault::LengthOutOfRange(0xffff_ffff)))
    ));
    assert!(matches!(
        fault_of(&[9, 0, 0, 0, 0, 0, 0, 0, 1]),
        Some((0, FrameFault::TruncatedBody))
    ));
    assert!(matches!(
        fault_of(&frame(b"{}", 7)),
        Some((0, FrameFault::CrcMismatch))
    ));
    assert!(matches!(
        fault_of(&frame(b"{}", crc32fast::hash(b"{}"))),
        Some((0, FrameFault::BadBody(_)))
    ));
}

#[test]
fn frames_hold_length_checksum_and_body() {
    let mut fs = MemoryFs::new();
    let f = fs.create(&FsPath::new("/wal.log")).unwrap();
    let (mut wal, _) = Wal::open(f, 7, &codec()).unwrap();
    let op = Op::DropCollection {
        name: "x".to_string(),
    };
    assert_eq!(wal.append(f, &op, &codec()).unwrap(), 7);
    assert_eq!(wal.next_lsn(), 8);
    let body = encode(&WalRecord { lsn: 7, op }).unwrap();
    let b = read_all(f).unwrap();
    assert_eq!(b, frame(&body, crc32fast::hash(&body)));
    assert_eq!(wal.offset(), b.len() as u64);
    wal.reset(f).unwrap();
    assert_eq!(wal.offset(), 0);
    assert_eq!(wal.next_lsn(), 8);
    assert_eq!(f.len().unwrap(), 0);
}

#[test]
fn records_that_cannot_be_written_are_refused() {
    let mut fs = MemoryFs::new();
    let f = fs.create(&FsPath::new("/wal.log")).unwrap();
    let (mut wal, _) = Wal::open(f, 0, &codec()).unwrap();
    let refusing = Codec {
        encode: |_r: &WalRecord| -> Result<Vec<u8>, String> { Err("no".to_string()) },
        decode,
    };
    let op = Op::DropCollection {
        name: "x".to_string(),
    };
    match wal.append(f, &op, &refusing) {
        Err(Error::Serde(s)) => assert_eq!(s, "no"),
        other => panic!("{other:?}"),
    }
    assert_eq!(f.len().unwrap(), 0);
}

// ---------------------------------------------------------------- what holds of two calls

fn spread(n: i64) -> Db {
    let mut db = docs();
    let all: Vec<Point> = (0..n)
        .map(|i| pt(num(i), vec![1.0, i as f32, 0.5], "en", 2000 + i))
        .collect();
    db.upsert("docs", &all).unwrap();
    db
}

fn told(hits: &[ScoredPoint]) -> Vec<(ExternalId, u32, Option<String>, Option<Vec<u32>>)> {
    hits.iter()
        .map(|h| (h.id.clone(), h.score, text_of(&h.payload), h.vector.clone()))
        .collect()
}

#[test]
fn a_threshold_keeps_the_results_that_reach_it() {
    let db = spread(12);
    let q = || vector(&[1.0, 2.0, 0.0]).top_k(8).with_vector(true);
    let all = db.query("docs", &q()).unwrap();
    assert_eq!(all.len(), 8);
    for t in [0.0f32, 0.6, 0.9, 0.99, 2.0] {
        let some = db.query("docs", &q().threshold(t.to_bits())).unwrap();
        let want = all.iter().take_while(|h| f32::from_bits(h.score) >= t).count();
        assert_eq!(told(&some), told(&all)[..want].to_vec());
    }
}

#[test]
fn a_query_by_identifier_is_one_by_vector_without_that_point() {
    let db = spread(12);
    for i in [0i64, 3, 11] {
        let by_id = db.query("docs", &Query::nearest_to(num(i)).top_k(5)).unwrap();
        let other = !Condition::HasId { ids: vec![num(i)] };
        let q = vector(&[1.0, i as f32, 0.5]).top_k(5).filter(other);
        let by_vector = db.query("docs", &q).unwrap();
        assert_eq!(by_id.len(), 5);
        assert_eq!(told(&by_id), told(&by_vector));
    }
}

#[test]
fn the_same_query_gives_the_same_results() {
    let db = spread(9);
    let q = vector(&[0.5, 4.0, 1.0]).top_k(4);
    let one = db.query("docs", &q).unwrap();
    let other = db.query("docs", &q).unwrap();
    assert_eq!(told(&one), told(&other));
    assert_eq!(one.len(), 4);
}

fn bytes_at<F: Fs>(db: &mut Db<F>, path: &FsPath) -> Vec<u8> {
    let f = db.fs.open_rw(path).unwrap();
    read_all(f).unwrap()
}

fn log_file() -> FsPath {
    FsPath::new("/db/wal.log")
}

#[test]
fn a_flush_that_fails_at_a_segment_leaves_the_log_and_the_manifest() {
    let manifest = FsPath::new("/db/manifest").with_extension("json");
    let mut fails = 0;
    for n in 0.. {
        let (fs, left) = FaultFs::new(false);
        let mut db = Db::open(fs).unwrap();
        db.create("c", CollectionConfig::new(2, Metric::L2).unwrap())
            .unwrap();
        db.upsert("c", &[n_point(1), n_point(2)]).unwrap();
        let log = bytes_at(&mut db, &log_file());
        let list = bytes_at(&mut db, &manifest);
        left.set(Some(n));
        let r = db.flush();
        left.set(None);
        let at_segment = match db.job.step() {
            Some(Step::WriteSegment(_)) | Some(Step::WriteIndex(..)) => true,
            Some(Step::SaveManifest(_)) => true,
            _ => false,
        };
        assert_eq!(r.is_ok(), db.job.step().is_none());
        if at_segment {
            fails += 1;
            assert_eq!(bytes_at(&mut db, &log_file()), log);
            assert_eq!(bytes_at(&mut db, &manifest), list);
        }
        if r.is_ok() {
            assert!(bytes_at(&mut db, &log_file()).is_empty());
            assert!(bytes_at(&mut db, &manifest) != list);
            break;
        }
    }
    assert!(fails > 2);
}

#[test]
fn a_flush_that_was_not_asked_for_makes_the_first_segment() {
    let mut db = Db::fresh();
    db.db.options = DatabaseOptions {
        auto_flush_points: 2,
        auto_flush_bytes: 1 << 20,
    };
    db.create("c", CollectionConfig::new(2, Metric::L2).unwrap())
        .unwrap();
    db.upsert("c", &[n_point(1), n_point(2)]).unwrap();
    assert_eq!(segment_dirs(&db), vec!["seg-1"]);
    assert!(bytes_at(&mut db, &log_file()).is_empty());
    assert_eq!(db.count("c"), 2);
    db.upsert("c", &[n_point(3), n_point(4)]).unwrap();
    assert_eq!(segment_dirs(&db), vec!["seg-1", "seg-2"]);
}

#[test]
fn collections_get_their_segments_in_the_order_of_their_names() {
    let mut db = Db::fresh();
    for name in ["b", "c", "a"] {
        db.create(name, CollectionConfig::new(2, Metric::L2).unwrap())
            .unwrap();
        if name != "c" {
            db.upsert(name, &[n_point(1)]).unwrap();
        }
    }
    db.flush().unwrap();
    for (name, want) in [("a", vec![1]), ("b", vec![2]), ("c", vec![])] {
        let all = &db.db.manifest.collections;
        let entry = all.iter().find(|e| e.name == name).unwrap();
        assert_eq!(entry.segments, want);
    }
}

#[test]
fn only_segments_with_many_deleted_points_are_rebuilt() {
    let mut db = spread(10);
    db.flush().unwrap();
    let ids = |r: std::ops::Range<i64>| -> Vec<ExternalId> { r.map(num).collect() };
    assert_eq!(db.delete("docs", &ids(0..3)).unwrap(), 3);
    assert_eq!(segment_dirs(&db), vec!["seg-1"]);
    assert_eq!(db.delete("docs", &ids(3..4)).unwrap(), 1);
    assert_eq!(segment_dirs(&db), vec!["seg-2"]);
    assert_eq!(db.count("docs"), 6);
    assert_eq!(db.delete("docs", &ids(0..10)).unwrap(), 6);
    assert!(segment_dirs(&db).is_empty());
}
