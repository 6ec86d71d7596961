//! Segments, rotation, the writer's loop and migrations over a medium in memory.

use dduroc_engine::channel::{ChannelConfig, Interval};
use dduroc_engine::channel_state::{ChannelSpec, ChannelState, SegmentIdentity, NO_NAME};
use dduroc_engine::control::{Command, MigrationCommit, NsSetup, Reply};
use dduroc_engine::error::Error;
use dduroc_engine::footer::{Footer, FooterBuilder};
use dduroc_engine::format::{
    BlockHeader, BootCounter, Compression, EventId, Layout, Level, MetricId, Micros,
    ProtocolVersion, SegmentHeader, SegmentName, SpanKindId, Value, ValueType,
};
use dduroc_engine::intake::DRAIN_LIMIT;
use dduroc_engine::medium::{
    BlockContents, BlockInfo, BlockTypes, BodyProbe, Finished, HeaderProbe, Io, Listed, Medium,
    Place, SegmentFile,
};
use dduroc_engine::migrate::{MigrationInput, MigrationOutcome, Migrator, Steps};
use dduroc_engine::pulse::Pulse;
use dduroc_engine::queue::Inbox;
use dduroc_engine::migration_run::{run_namespace, Commits, Committer, MigrationReport};
use dduroc_engine::rewrite::rewrite_segment;
use dduroc_engine::rotation::Inventory;
use dduroc_engine::limits::MetricLimits;
use dduroc_engine::metric::{Metric, Single};
use dduroc_engine::namespace::{Namespace, NsMeta, Series};
use dduroc_engine::desk::Desk;
use dduroc_engine::scalar::Scalar;
use dduroc_engine::schema::{
    DecodeError, EventDesc, Language, MetricDesc, MetricKind, Migration, Range, Reading, Schema,
    Severity, SpanDesc, StateDesc, StorageClass, Thresholds,
};
use dduroc_engine::store::{NsQuota, OpeningFault, PerClass, StoreConfig, StoreMeta};
use dduroc_engine::store_core::StoreCore;
use dduroc_engine::segment::{seal_orphan, Scan, ScanEnd, SegmentReader, SegmentWriter, Stopped};
use dduroc_engine::service::{IDLE_TIMEOUT, MIN_TIMEOUT, PARK_AFTER};
use dduroc_engine::budget::{Pick, RELEASE_AFTER};
use dduroc_engine::staged::{
    ChannelIdx, DropCounters, NsId, OwnedValue, Payload, Record, Staged, StagedRecord, StoredRecord,
};
use dduroc_engine::stats::Counters;
use dduroc_engine::writer::{QueueSizes, Writer};
use dduroc_engine::writer_loop::{GroupBudget, Leftovers, WriterLoop};
use std::cell::RefCell;
use std::collections::{BTreeMap, HashMap};
use std::rc::Rc;

const LAYOUT: Layout = Layout { segment_header: 40, block_header: 32, trailer: 16 };
const SECOND: u64 = 1_000_000_000;

// -- the medium --------------------------------------------------------------

fn copy_value(v: &Value<'_>) -> OwnedValue {
    match v {
        Value::F32(b) => OwnedValue::F32(*b),
        Value::F64(b) => OwnedValue::F64(*b),
        Value::I64(n) => OwnedValue::I64(*n),
        Value::U64(n) => OwnedValue::U64(*n),
        Value::Bool(b) => OwnedValue::Bool(*b),
        Value::Blob(b) => OwnedValue::Blob(Payload::from_slice(b)),
    }
}

fn copy_record(r: &Record<'_>) -> StoredRecord {
    match *r {
        Record::Message { event, span, payload } => {
            StoredRecord::Message { event, span, payload: payload.to_vec() }
        }
        Record::SpanStart { span, kind, parent } => StoredRecord::SpanStart { span, kind, parent },
        Record::SpanEnd { span } => StoredRecord::SpanEnd { span },
        Record::Sample { metric, value } => {
            StoredRecord::Sample { metric, value: copy_value(&value) }
        }
        Record::Text { level, span, target, text } => StoredRecord::Text {
            level,
            span,
            target: target.to_owned(),
            text: text.to_owned(),
        },
        Record::Ext { tag, body } => StoredRecord::Ext { tag, body: body.to_vec() },
    }
}

fn size_of_record(r: &Record<'_>) -> u64 {
    5 + match r {
        Record::Message { payload, .. } => payload.len() as u64,
        Record::Sample { value: Value::Blob(b), .. } => b.len() as u64,
        Record::Text { target, text, .. } => (target.len() + text.len()) as u64,
        Record::Ext { body, .. } => body.len() as u64,
        _ => 0,
    }
}

#[derive(Default)]
struct Building {
    records: Vec<(Micros, StoredRecord)>,
    raw_len: u64,
    ready: Option<Rc<Vec<(Micros, StoredRecord)>>>,
    stamp: u32,
    packed: Option<Compression>,
    held: u64,
}

struct Block {
    header: BlockHeader,
    records: Rc<Vec<(Micros, StoredRecord)>>,
    packed: Compression,
    bad_header: bool,
    torn: bool,
}

struct File {
    header: SegmentHeader,
    len: u64,
    blocks: BTreeMap<u64, Block>,
    footer: Option<(u64, u64, Footer)>,
    open: bool,
    synced: bool,
}

struct State {
    now: u64,
    files: HashMap<SegmentFile, File>,
    building: HashMap<Place, Building>,
    dirs: HashMap<Place, String>,
    free: Option<u64>,
    refuse_space: u32,
    syncs: u32,
}

#[derive(Clone)]
struct Disk(Rc<RefCell<State>>);

fn io_error(code: i32) -> Error {
    Error::Io { context: "test medium".to_owned(), os_code: Some(code) }
}

fn copy_footer(f: &Footer) -> Footer {
    Footer { blocks: f.blocks.clone(), events: f.events.clone(), metrics: f.metrics.clone() }
}

impl Disk {
    fn new() -> Disk {
        Disk(Rc::new(RefCell::new(State {
            now: 1_000 * SECOND,
            files: HashMap::new(),
            building: HashMap::new(),
            dirs: HashMap::new(),
            free: None,
            refuse_space: 0,
            syncs: 0,
        })))
    }

    fn io(&self) -> Io<Disk> {
        Io::new(self.clone())
    }

    fn has(&self, file: SegmentFile) -> bool {
        self.0.borrow().files.contains_key(&file)
    }

    fn len(&self, file: SegmentFile) -> u64 {
        self.0.borrow().files[&file].len
    }

    fn is_open(&self, file: SegmentFile) -> bool {
        self.0.borrow().files[&file].open
    }

    fn damage_body(&self, file: SegmentFile, offset: u64) {
        self.0.borrow_mut().files.get_mut(&file).unwrap().blocks.get_mut(&offset).unwrap().torn =
            true;
    }

    fn damage_header(&self, file: SegmentFile, offset: u64) {
        let mut s = self.0.borrow_mut();
        let block = s.files.get_mut(&file).unwrap().blocks.get_mut(&offset).unwrap();
        block.bad_header = true;
    }

    fn held(&self, place: Place) -> u64 {
        self.0.borrow().building.get(&place).map_or(0, |b| b.held)
    }

    fn pass(&self, nanos: u64) {
        self.0.borrow_mut().now += nanos;
    }

    fn reserve(s: &mut State, bytes: u64) -> Result<(), Error> {
        if s.refuse_space > 0 {
            s.refuse_space -= 1;
            return Err(io_error(28));
        }
        if let Some(free) = s.free {
            if free < bytes {
                return Err(io_error(28));
            }
            s.free = Some(free - bytes);
        }
        Ok(())
    }

    fn give_back(s: &mut State, bytes: u64) {
        if let Some(free) = s.free {
            s.free = Some(free + bytes);
        }
    }

    /// The texts written at a place, oldest first.
    fn texts(&self, place: Place) -> Vec<String> {
        let s = self.0.borrow();
        let mut names: Vec<&SegmentFile> = s.files.keys().filter(|f| f.place == place).collect();
        names.sort_by_key(|f| (f.name.boot.0, f.name.base.0));
        let mut out = Vec::new();
        for f in names {
            for b in s.files[f].blocks.values() {
                for (_, r) in b.records.iter() {
                    if let StoredRecord::Text { text, .. } = r {
                        out.push(text.clone());
                    }
                }
            }
        }
        out
    }

    /// How many records lie at a place.
    fn records(&self, place: Place) -> usize {
        let s = self.0.borrow();
        s.files
            .iter()
            .filter(|(f, _)| f.place == place)
            .flat_map(|(_, f)| f.blocks.values())
            .map(|b| b.records.len())
            .sum()
    }
}

impl Medium for Disk {
    fn now(&mut self) -> u64 {
        self.0.borrow().now
    }

    fn path_of(&mut self, file: SegmentFile) -> String {
        format!("/{:?}", file.name)
    }

    fn dir_of(&mut self, place: Place) -> String {
        self.0.borrow().dirs.get(&place).cloned().unwrap_or_default()
    }

    fn held_bytes(&mut self, place: Place) -> u64 {
        self.held(place)
    }

    fn reset_block(&mut self, place: Place) {
        let mut s = self.0.borrow_mut();
        let b = s.building.entry(place).or_default();
        b.records.clear();
        b.raw_len = 0;
    }

    fn release_buffers(&mut self, place: Place) {
        let mut s = self.0.borrow_mut();
        let b = s.building.entry(place).or_default();
        if b.records.is_empty() {
            b.held = 0;
        }
    }

    fn close(&mut self, file: SegmentFile) {
        if let Some(f) = self.0.borrow_mut().files.get_mut(&file) {
            f.open = false;
        }
    }

    fn write_footer(&mut self, file: SegmentFile, offset: u64, footer: &Footer) -> Result<u64, Error> {
        let mut s = self.0.borrow_mut();
        let len = 16
            + 24 * footer.blocks.len() as u64
            + 2 * (footer.events.len() + footer.metrics.len()) as u64;
        let f = s.files.get_mut(&file).unwrap();
        f.footer = Some((offset, len, copy_footer(footer)));
        f.len = offset + len;
        Ok(len)
    }

    fn read_footer(&mut self, file: SegmentFile, offset: u64, len: u64) -> Result<Option<Footer>, Error> {
        let s = self.0.borrow();
        Ok(match &s.files[&file].footer {
            Some((at, n, f)) if *at == offset && *n == len => Some(copy_footer(f)),
            _ => None,
        })
    }

    fn attach(&mut self, place: Place, dir: &str) -> Result<(), Error> {
        self.0.borrow_mut().dirs.insert(place, dir.to_owned());
        Ok(())
    }

    fn sweep(&mut self, place: Place) -> Result<(), Error> {
        let staging = Place { staging: true, ..place };
        self.0.borrow_mut().files.retain(|f, _| f.place != staging);
        Ok(())
    }

    fn list(&mut self, place: Place) -> Result<Option<Vec<Listed>>, Error> {
        let s = self.0.borrow();
        Ok(Some(
            s.files
                .iter()
                .filter(|(f, _)| f.place == place)
                .map(|(f, d)| Listed { name: Some(f.name), is_file: true, size_bytes: d.len })
                .collect(),
        ))
    }

    fn create(&mut self, file: SegmentFile, header: SegmentHeader, capacity: u64) -> Result<(), Error> {
        let mut s = self.0.borrow_mut();
        if s.files.contains_key(&file) {
            return Err(io_error(17));
        }
        Disk::reserve(&mut s, capacity)?;
        s.files.insert(
            file,
            File {
                header,
                len: capacity,
                blocks: BTreeMap::new(),
                footer: None,
                open: true,
                synced: true,
            },
        );
        Ok(())
    }

    fn open_for_append(&mut self, file: SegmentFile) -> Result<u64, Error> {
        let mut s = self.0.borrow_mut();
        let f = s.files.get_mut(&file).ok_or_else(|| io_error(2))?;
        f.open = true;
        Ok(f.len)
    }

    fn open_for_reading(&mut self, file: SegmentFile) -> Result<u64, Error> {
        let s = self.0.borrow();
        s.files.get(&file).map(|f| f.len).ok_or_else(|| io_error(2))
    }

    fn grow(&mut self, file: SegmentFile, capacity: u64) -> Result<(), Error> {
        let mut s = self.0.borrow_mut();
        let len = s.files[&file].len;
        Disk::reserve(&mut s, capacity.saturating_sub(len))?;
        s.files.get_mut(&file).unwrap().len = capacity;
        Ok(())
    }

    fn write_block(&mut self, file: SegmentFile, offset: u64, block: BlockInfo) -> Result<(), Error> {
        let mut s = self.0.borrow_mut();
        let records = s.building[&file.place].ready.clone().expect("a finished block");
        let packed = s.building[&file.place].packed.expect("a finished block");
        let header = BlockHeader { seq: s.building[&file.place].stamp, ..block.header };
        let f = s.files.get_mut(&file).unwrap();
        assert!(f.open, "writing to a closed file");
        assert!(offset + block.len <= f.len, "writing past the window");
        let end = offset + block.len;
        f.blocks.retain(|at, b| *at + 32 + b.header.body_len as u64 <= offset || *at >= end);
        f.blocks
            .insert(offset, Block { header, records, packed, bad_header: false, torn: false });
        f.synced = false;
        Ok(())
    }

    fn sync(&mut self, file: SegmentFile) -> Result<(), Error> {
        let mut s = self.0.borrow_mut();
        s.syncs += 1;
        s.files.get_mut(&file).unwrap().synced = true;
        Ok(())
    }

    fn truncate(&mut self, file: SegmentFile, len: u64) -> Result<(), Error> {
        let mut s = self.0.borrow_mut();
        let f = s.files.get_mut(&file).unwrap();
        let freed = f.len.saturating_sub(len);
        f.len = len;
        f.footer = None;
        f.blocks.retain(|at, b| *at + 32 + b.header.body_len as u64 <= len);
        Disk::give_back(&mut s, freed);
        Ok(())
    }

    fn remove(&mut self, file: SegmentFile) -> Result<(), Error> {
        self.unlink(file)
    }

    fn unlink(&mut self, file: SegmentFile) -> Result<(), Error> {
        let mut s = self.0.borrow_mut();
        if let Some(f) = s.files.remove(&file) {
            Disk::give_back(&mut s, f.len);
        }
        Ok(())
    }

    fn sync_dir(&mut self, _place: Place) -> Result<(), Error> {
        Ok(())
    }

    fn swap_in(&mut self, file: SegmentFile) -> Result<(), Error> {
        let mut s = self.0.borrow_mut();
        let staged = SegmentFile { place: Place { staging: true, ..file.place }, name: file.name };
        let f = s.files.remove(&staged).ok_or_else(|| io_error(2))?;
        s.files.insert(file, f);
        Ok(())
    }

    fn read_segment_header(&mut self, file: SegmentFile) -> Result<SegmentHeader, Error> {
        Ok(self.0.borrow().files[&file].header)
    }

    fn read_block_header(&mut self, file: SegmentFile, offset: u64) -> HeaderProbe {
        let s = self.0.borrow();
        match s.files[&file].blocks.get(&offset) {
            Some(b) if b.bad_header => HeaderProbe::Invalid("wrong checksum".to_owned()),
            Some(b) => HeaderProbe::Found(b.header),
            None => HeaderProbe::Zero,
        }
    }

    fn read_block_body(&mut self, file: SegmentFile, offset: u64, _header: BlockHeader) -> BodyProbe {
        let s = self.0.borrow();
        let b = &s.files[&file].blocks[&offset];
        if b.torn {
            return BodyProbe::Torn;
        }
        let mut types =
            BlockTypes { events: Vec::new(), metrics: Vec::new(), last: Micros(0) };
        for (at, r) in b.records.iter() {
            types.last = *at;
            match r {
                StoredRecord::Message { event, .. } => types.events.push(*event),
                StoredRecord::Sample { metric, .. } => types.metrics.push(*metric),
                _ => {}
            }
        }
        BodyProbe::Sound(types)
    }

    fn read_records(
        &mut self,
        file: SegmentFile,
        offset: u64,
        _header: BlockHeader,
    ) -> Result<BlockContents, Error> {
        let s = self.0.borrow();
        let b = &s.files[&file].blocks[&offset];
        if b.torn {
            return Err(Error::Format("wrong checksum".to_owned()));
        }
        Ok(BlockContents {
            compression: b.packed,
            records: b.records.iter().map(|(at, r)| (*at, copy_record(&r.as_record()))).collect(),
        })
    }

    fn ends_with_signature(&mut self, file: SegmentFile, len: u64) -> bool {
        let s = self.0.borrow();
        matches!(&s.files[&file].footer, Some((at, n, _)) if at + n == len)
    }

    fn read_trailer(&mut self, file: SegmentFile, offset: u64) -> Result<Option<u64>, Error> {
        let s = self.0.borrow();
        let f = &s.files[&file];
        Ok(match &f.footer {
            Some((at, n, _)) if at + n == f.len && offset + 16 == f.len => Some(*n),
            _ => None,
        })
    }

    fn push_record(&mut self, place: Place, at: Micros, record: &Record<'_>) -> Result<u64, Error> {
        let mut s = self.0.borrow_mut();
        let b = s.building.entry(place).or_default();
        b.records.push((at, copy_record(record)));
        b.raw_len += size_of_record(record);
        b.held = b.held.max(b.raw_len);
        Ok(b.raw_len)
    }

    fn finish_block(
        &mut self,
        place: Place,
        seq: u32,
        compression: Compression,
    ) -> Result<Finished, Error> {
        let mut s = self.0.borrow_mut();
        let b = s.building.entry(place).or_default();
        b.stamp = seq;
        b.packed = Some(compression);
        b.ready = Some(Rc::new(std::mem::take(&mut b.records)));
        let body_len = b.raw_len as u32;
        b.raw_len = 0;
        // The serialized copy is held beside the body.
        b.held = b.held.max(2 * u64::from(body_len));
        Ok(Finished { body_len, len: u64::from(body_len) + 32 })
    }

    fn restamp(&mut self, place: Place, seq: u32) -> Result<(), Error> {
        self.0.borrow_mut().building.entry(place).or_default().stamp = seq;
        Ok(())
    }
}

fn place() -> Place {
    Place { ns: NsId(0), channel: ChannelIdx(0), staging: false }
}

fn name(boot: u32, base: u64) -> SegmentName {
    SegmentName::new(BootCounter(boot), Micros(base))
}

fn file_of(boot: u32, base: u64) -> SegmentFile {
    SegmentFile { place: place(), name: name(boot, base) }
}

// -- rotation ----------------------------------------------------------------

fn make(disk: &Disk, boot: u32, base: u64, size_bytes: u64) {
    let header = SegmentHeader {
        protocol_version: ProtocolVersion(1),
        boot: BootCounter(boot),
        base: Micros(base),
        store_id: 0,
    };
    disk.clone().create(file_of(boot, base), header, size_bytes).unwrap();
}

fn scan(disk: &Disk) -> Inventory {
    let listing = disk.clone().list(place()).unwrap();
    Inventory::scan(listing.as_ref())
}

fn bases(inv: &Inventory) -> Vec<(u32, u64)> {
    (0..inv.len())
        .map(|i| {
            let e = inv.get(i).unwrap();
            (e.name.boot.0, e.name.base.0)
        })
        .collect()
}

#[test]
fn scan_orders_by_time_and_ignores_foreign_files() {
    let seg = |boot, base, size_bytes| Listed {
        name: Some(name(boot, base)),
        is_file: true,
        size_bytes,
    };
    let listing = vec![
        seg(2, 100, 10),
        seg(1, 500, 20),
        seg(1, 100, 30),
        Listed { name: None, is_file: true, size_bytes: 13 },
        Listed { name: Some(name(9, 15)), is_file: false, size_bytes: 4096 },
    ];
    let inv = Inventory::scan(Some(&listing));
    assert_eq!(inv.len(), 3, "foreign files and directories are skipped");
    assert_eq!(inv.total_bytes(), 60);
    assert_eq!(bases(&inv), vec![(1, 100), (1, 500), (2, 100)], "ordered by run and time");
    assert_eq!(inv.oldest().unwrap().name.base, Micros(100));
    assert_eq!(inv.newest().unwrap().name.boot, BootCounter(2));
    assert_eq!(inv.min_boot(), Some(1));
    assert_eq!(
        Inventory::scan_names(&listing).len(),
        4,
        "by name alone a directory counts too"
    );
}

#[test]
fn missing_dir_is_empty_not_error() {
    let inv = Inventory::scan(None);
    assert!(inv.is_empty());
    assert_eq!(inv.total_bytes(), 0);
}

#[test]
fn budget_removes_oldest_first() {
    let disk = Disk::new();
    for i in 0..5u64 {
        make(&disk, 1, i * 100, 100);
    }
    let mut inv = scan(&disk);
    assert_eq!(inv.total_bytes(), 500);

    let removed = inv.enforce_budget(place(), 250, None, &mut disk.io()).unwrap();
    assert_eq!(removed, 3, "exactly enough was deleted to fit the budget");
    assert_eq!(inv.total_bytes(), 200);
    assert_eq!(inv.oldest().unwrap().name.base, Micros(300));
    assert!(!disk.has(file_of(1, 0)), "the oldest file really is deleted");
}

#[test]
fn active_segment_is_never_removed() {
    let disk = Disk::new();
    make(&disk, 1, 0, 1000);
    let mut inv = scan(&disk);
    let active = inv.newest().unwrap().name;

    let removed = inv.enforce_budget(place(), 10, Some(active), &mut disk.io()).unwrap();
    assert_eq!(removed, 0);
    assert_eq!(inv.len(), 1, "the active segment survived");

    make(&disk, 1, 500, 1000);
    let mut inv = scan(&disk);
    let active = inv.newest().unwrap().name;
    assert_eq!(inv.enforce_budget(place(), 10, Some(active), &mut disk.io()).unwrap(), 1);
    assert_eq!(inv.len(), 1);
    assert_eq!(inv.newest().unwrap().name, active);
}

#[test]
fn budget_within_limit_removes_nothing() {
    let disk = Disk::new();
    make(&disk, 1, 0, 100);
    let mut inv = scan(&disk);
    assert_eq!(inv.enforce_budget(place(), 1000, None, &mut disk.io()).unwrap(), 0);
    assert_eq!(inv.len(), 1);
}

#[test]
fn size_updates_after_seal_are_accounted() {
    let disk = Disk::new();
    make(&disk, 1, 0, 1000);
    let mut inv = scan(&disk);
    assert_eq!(inv.total_bytes(), 1000);

    let name = inv.newest().unwrap().name;
    inv.update_size_bytes(name, 200);
    assert_eq!(inv.total_bytes(), 200, "the budget counts the real size");

    inv.remove(name);
    assert_eq!(inv.total_bytes(), 0);
    assert!(inv.is_empty());
}

#[test]
fn vanished_file_does_not_break_rotation() {
    let disk = Disk::new();
    make(&disk, 1, 0, 100);
    make(&disk, 1, 100, 100);
    let mut inv = scan(&disk);
    disk.clone().unlink(file_of(1, 0)).unwrap();

    let removed = inv.enforce_budget(place(), 50, None, &mut disk.io()).unwrap();
    assert_eq!(removed, 2, "a vanished file is simply forgotten");
    assert!(inv.is_empty());
}

// -- segments ----------------------------------------------------------------

fn header(base: u64) -> SegmentHeader {
    SegmentHeader {
        protocol_version: ProtocolVersion(1),
        boot: BootCounter(7),
        base: Micros(base),
        store_id: 0,
    }
}

/// Assembles a block of messages, ready to be written.
fn ready_block(io: &mut Io<Disk>, seq: u32, base: u64, count: u32) -> BlockInfo {
    for i in 0..count {
        let record =
            Record::Message { event: EventId(1), span: None, payload: &[0xAB; 8] };
        io.push_record(place(), Micros(base + u64::from(i) * 100), &record).unwrap();
    }
    let done = io.finish_block(place(), seq, Compression::Plain).unwrap();
    BlockInfo {
        header: BlockHeader { seq, body_len: done.body_len, base: Micros(base), count },
        len: done.len,
    }
}

fn append(w: &mut SegmentWriter, io: &mut Io<Disk>, base: u64, count: u32) -> u64 {
    let block = ready_block(io, w.next_seq(), base, count);
    w.append_block(block, io).unwrap()
}

fn segment(io: &mut Io<Disk>, base: u64, limit: u64) -> SegmentWriter {
    SegmentWriter::create(io, place(), header(base), limit, LAYOUT).unwrap()
}

#[test]
fn create_append_and_reopen() {
    let disk = Disk::new();
    let mut io = disk.io();
    let mut w = segment(&mut io, 1_000, 64 * 1024);
    assert_eq!(w.data_end(), 40);
    let offset = append(&mut w, &mut io, 1_000, 3);
    assert_eq!(offset, 40);
    w.sync(&mut io).unwrap();
    assert!(!w.is_dirty());
    let end = w.data_end();
    let path = w.path();
    assert_eq!(disk.len(path), 64 * 1024, "space is reserved: the size exceeds the data");

    let w2 = SegmentWriter::reopen(&mut io, path, None, None, LAYOUT).unwrap();
    assert_eq!(w2.data_end(), end, "the end of the data is restored");
    assert_eq!(w2.header(), header(1_000));
    assert_eq!(w2.next_seq(), 1, "block numbering continues");
}

#[test]
fn zero_tail_terminates_scan() {
    let disk = Disk::new();
    let mut io = disk.io();
    let mut w = segment(&mut io, 1_000, 32 * 1024);
    append(&mut w, &mut io, 1_000, 2);
    append(&mut w, &mut io, 2_000, 2);
    w.sync(&mut io).unwrap();
    let end = w.data_end();

    let scan = Scan::of_path(&mut io, w.path(), LAYOUT).unwrap();
    assert_eq!(scan.block_count, 2);
    assert_eq!(scan.stopped_by, ScanEnd::ZeroTail);
    assert!(!scan.truncated(), "an intact tail does not count as damaged");
    assert_eq!(scan.data_end, end);
}

#[test]
fn torn_block_is_truncated_not_fatal() {
    let disk = Disk::new();
    let mut io = disk.io();
    let mut w = segment(&mut io, 1_000, 32 * 1024);
    append(&mut w, &mut io, 1_000, 4);
    let good_end = w.data_end();
    append(&mut w, &mut io, 2_000, 4);
    w.sync(&mut io).unwrap();
    let path = w.path();
    disk.damage_body(path, good_end);

    let scan = Scan::of_path(&mut io, path, LAYOUT).unwrap();
    assert_eq!(scan.block_count, 1, "the first block survived");
    assert_eq!(scan.stopped_by, ScanEnd::Corrupt, "the tear is recognized as corruption");
    assert_eq!(scan.data_end, good_end, "the data ends before the broken block");

    let mut w = SegmentWriter::reopen(&mut io, path, None, None, LAYOUT).unwrap();
    assert_eq!(w.data_end(), good_end);
    assert_eq!(w.next_seq(), 1);
    append(&mut w, &mut io, 3_000, 4);
    w.sync(&mut io).unwrap();
    let scan = Scan::of_path(&mut io, path, LAYOUT).unwrap();
    assert_eq!(scan.block_count, 2);
    assert!(!scan.truncated());
}

#[test]
fn tail_is_zeroed_after_recovery() {
    let disk = Disk::new();
    let mut io = disk.io();
    let mut w = segment(&mut io, 0, 32 * 1024);
    append(&mut w, &mut io, 0, 1);
    let good_end = w.data_end();
    append(&mut w, &mut io, 1_000, 50);
    w.sync(&mut io).unwrap();
    let long_end = w.data_end();
    let path = w.path();
    disk.damage_header(path, good_end);

    let mut w =
        SegmentWriter::reopen(&mut io, path, None, Some(32 * 1024), LAYOUT).unwrap();
    assert_eq!(w.data_end(), good_end);
    assert_eq!(disk.len(path), good_end, "the area of the long block must be cut off");

    append(&mut w, &mut io, 2_000, 1);
    w.sync(&mut io).unwrap();
    let new_end = w.data_end();
    assert!(new_end < long_end, "otherwise the test is empty: the block must be shorter");
    assert!(disk.len(path) > new_end, "the window was extended for the write");

    let scan = Scan::of_path(&mut io, path, LAYOUT).unwrap();
    assert_eq!(scan.block_count, 2);
    assert_eq!(scan.stopped_by, ScanEnd::ZeroTail, "a clean end of data");
}

#[test]
fn seq_gap_is_distinguished_from_corruption() {
    let disk = Disk::new();
    let mut io = disk.io();
    let mut w = segment(&mut io, 0, 32 * 1024);
    append(&mut w, &mut io, 0, 1);
    let end_after_first = w.data_end();
    let block = ready_block(&mut io, 5, 1_000, 1);
    w.append_block(block, &mut io).unwrap();
    w.sync(&mut io).unwrap();

    let scan = Scan::of_path(&mut io, w.path(), LAYOUT).unwrap();
    assert_eq!(scan.block_count, 1);
    assert_eq!(scan.stopped_by, ScanEnd::SeqGap { expected: 1, found: 5 });
    assert!(scan.truncated());
    assert_eq!(scan.data_end, end_after_first);
}

#[test]
fn foreign_store_segment_rejected() {
    let disk = Disk::new();
    let mut io = disk.io();
    let mut h = header(0);
    h.store_id = 0xAAAA_BBBB_CCCC_DDDD;
    let w = SegmentWriter::create(&mut io, place(), h, 8 * 1024, LAYOUT).unwrap();

    let err = SegmentWriter::reopen(&mut io, w.path(), Some(0x1111_2222_3333_4444), None, LAYOUT)
        .unwrap_err();
    assert!(
        matches!(err, Error::ForeignSegment { .. }),
        "a segment of a foreign store must be refused: {err:?}"
    );
    SegmentWriter::reopen(&mut io, w.path(), Some(0xAAAA_BBBB_CCCC_DDDD), None, LAYOUT).unwrap();
}

#[test]
fn garbage_block_length_does_not_allocate_wildly() {
    let disk = Disk::new();
    let mut io = disk.io();
    let mut w = segment(&mut io, 0, 8 * 1024);
    append(&mut w, &mut io, 0, 1);
    let end = w.data_end();
    append(&mut w, &mut io, 1_000, 1);
    {
        let mut s = disk.0.borrow_mut();
        let block = s.files.get_mut(&w.path()).unwrap().blocks.get_mut(&end).unwrap();
        block.header.body_len = 0xFFFF_FFFF;
    }
    let scan = Scan::of_path(&mut io, w.path(), LAYOUT).unwrap();
    assert!(scan.truncated());
    assert_eq!(scan.data_end, end, "a garbage length did not lead the walk past the file");
}

#[test]
fn orphan_is_sealed_and_gives_back_its_preallocation() {
    let disk = Disk::new();
    let mut io = disk.io();
    let mut w = segment(&mut io, 1_000, 32 * 1024);
    append(&mut w, &mut io, 1_000, 3);
    append(&mut w, &mut io, 2_000, 3);
    w.sync(&mut io).unwrap();
    let path = w.path();

    assert_eq!(disk.len(path), 32 * 1024);
    assert!(!SegmentReader::open(&mut io, path, LAYOUT).unwrap().is_sealed());

    let rec = seal_orphan(&mut io, path, Some(0), LAYOUT).unwrap().expect("the segment is torn");
    assert_eq!(rec.name, name(7, 1_000));
    assert!(!rec.truncated, "an intact tail is not damage");
    assert_eq!(disk.len(path), rec.size_bytes, "the file size matched what was declared");
    assert!(rec.size_bytes < 4 * 1024, "the window is given back: {}", rec.size_bytes);
    assert_eq!(rec.reclaimed, 32 * 1024 - rec.size_bytes);

    let mut r = SegmentReader::open(&mut io, path, LAYOUT).unwrap();
    assert!(r.is_sealed());
    {
        let footer = r.footer().expect("the footer reads");
        assert_eq!(footer.blocks.len(), 2);
        assert_eq!(footer.blocks[0].offset, 40);
        assert_eq!(footer.events, vec![EventId(1)], "the types were assembled from the bodies");
    }
    assert_eq!(r.block_offsets(&mut io).len(), 2);

    assert!(seal_orphan(&mut io, path, Some(0), LAYOUT).unwrap().is_none());
}

#[test]
fn orphan_recovery_drops_the_torn_tail() {
    let disk = Disk::new();
    let mut io = disk.io();
    let mut w = segment(&mut io, 0, 32 * 1024);
    append(&mut w, &mut io, 0, 2);
    let good_end = w.data_end();
    append(&mut w, &mut io, 1_000, 2);
    w.sync(&mut io).unwrap();
    disk.damage_body(w.path(), good_end);

    let rec = seal_orphan(&mut io, w.path(), Some(0), LAYOUT).unwrap().unwrap();
    assert!(rec.truncated, "damage to the tail must be announced");
    let r = SegmentReader::open(&mut io, w.path(), LAYOUT).unwrap();
    assert!(r.is_sealed());
    assert_eq!(
        r.footer().unwrap().blocks.len(),
        1,
        "only the surviving block reached the footer"
    );
}

#[test]
fn orphan_of_a_foreign_store_is_left_alone() {
    let disk = Disk::new();
    let mut io = disk.io();
    let mut h = header(0);
    h.store_id = 0xAAAA_BBBB_CCCC_DDDD;
    let mut w = SegmentWriter::create(&mut io, place(), h, 16 * 1024, LAYOUT).unwrap();
    append(&mut w, &mut io, 0, 1);
    w.sync(&mut io).unwrap();

    let err = seal_orphan(&mut io, w.path(), Some(0x1111_2222_3333_4444), LAYOUT).unwrap_err();
    assert!(matches!(err, Error::ForeignSegment { .. }), "got {err:?}");
    assert_eq!(disk.len(w.path()), 16 * 1024, "the foreign file is untouched");
}

#[test]
fn a_walk_is_continued_where_an_earlier_one_stood() {
    let disk = Disk::new();
    let mut io = disk.io();
    let mut w = segment(&mut io, 0, 32 * 1024);
    for base in [0, 1_000, 2_000, 3_000] {
        append(&mut w, &mut io, base, 2);
    }
    w.sync(&mut io).unwrap();
    let mut r = SegmentReader::open(&mut io, w.path(), LAYOUT).unwrap();
    let all = r.scan_block_offsets(&mut io);
    assert_eq!(all.offsets.len(), 4);
    assert_eq!(all.end, w.data_end());
    for i in 0..=4usize {
        let from = all.offsets.get(i).copied().unwrap_or(all.end);
        let rest = r.scan_block_offsets_from(from, i as u32, &mut io);
        assert_eq!(rest.offsets, all.offsets[i..]);
        assert_eq!((rest.end, rest.next_seq), (all.end, all.next_seq));
        assert!(rest.stopped.is_none());
    }
}

#[test]
fn damage_that_stopped_a_walk_stops_its_continuation() {
    let disk = Disk::new();
    let mut io = disk.io();
    let mut w = segment(&mut io, 0, 32 * 1024);
    let places: Vec<u64> =
        [0, 1_000, 2_000, 3_000].into_iter().map(|base| append(&mut w, &mut io, base, 2)).collect();
    w.sync(&mut io).unwrap();
    disk.damage_header(w.path(), places[2]);
    let mut r = SegmentReader::open(&mut io, w.path(), LAYOUT).unwrap();
    let reason = |stopped: &Option<(u64, Stopped)>| match stopped {
        Some((at, Stopped::Failed(Error::Corrupt { reason, .. }))) => (*at, reason.clone()),
        other => panic!("damage stops the walk: {other:?}"),
    };
    let all = r.scan_block_offsets(&mut io);
    assert_eq!(all.offsets, places[..2]);
    assert_eq!((all.end, all.next_seq), (places[2], 2));
    assert_eq!(reason(&all.stopped).0, places[2]);
    for i in 0..=2usize {
        let from = all.offsets.get(i).copied().unwrap_or(all.end);
        let rest = r.scan_block_offsets_from(from, i as u32, &mut io);
        assert_eq!(rest.offsets, all.offsets[i..]);
        assert_eq!((rest.end, rest.next_seq), (all.end, all.next_seq));
        assert_eq!(reason(&rest.stopped), reason(&all.stopped));
    }
}

#[test]
fn the_types_of_a_block_are_those_of_its_records() {
    let message = |event| StoredRecord::Message { event: EventId(event), span: None, payload: vec![] };
    let sampled = |metric| StoredRecord::Sample {
        metric: MetricId(metric),
        value: OwnedValue::U64(1),
    };
    let types = BlockTypes::of_records(&vec![
        (Micros(5), message(3)),
        (Micros(6), sampled(8)),
        (Micros(7), StoredRecord::Ext { tag: 1, body: vec![] }),
        (Micros(9), message(2)),
    ], Micros(5));
    assert_eq!(types.events, vec![EventId(3), EventId(2)]);
    assert_eq!(types.metrics, vec![MetricId(8)]);
    assert_eq!(types.last, Micros(9));
    let none = BlockTypes::of_records(&Vec::new(), Micros(4));
    assert!(none.events.is_empty() && none.metrics.is_empty());
    assert_eq!(none.last, Micros(4), "the base of the block");
}

#[test]
fn scan_reports_a_hole_in_block_numbering() {
    let disk = Disk::new();
    let mut io = disk.io();
    let mut w = segment(&mut io, 0, 32 * 1024);
    append(&mut w, &mut io, 0, 1);
    let block = ready_block(&mut io, 5, 1_000, 1);
    w.append_block(block, &mut io).unwrap();
    w.sync(&mut io).unwrap();
    let path = w.path();
    w.close_unsealed(&mut io).unwrap();

    let mut r = SegmentReader::open(&mut io, path, LAYOUT).unwrap();
    let scan = r.scan_block_offsets(&mut io);
    assert_eq!(scan.offsets.len(), 1, "the surviving block stays in the selection");
    let (_, reason) = scan.stopped.expect("the gap must be named");
    let reason = reason.gap_reason().expect("a gap");
    assert!(
        reason.contains("gap in block numbering"),
        "the diagnosis must differ from corruption: {reason}"
    );
}

#[test]
fn seal_writes_footer_and_trims() {
    let disk = Disk::new();
    let mut io = disk.io();
    let mut w = segment(&mut io, 1_000, 64 * 1024);
    let block = ready_block(&mut io, 0, 1_000, 3);
    let offset = w.append_block(block, &mut io).unwrap();
    let path = w.path();

    let mut fb = FooterBuilder::new();
    fb.add_block(offset, &block.header, Micros(1_200));
    fb.add_event(EventId(1));
    w.seal(&fb.build(), &mut io).unwrap();

    let size = disk.len(path);
    assert!(size < 64 * 1024, "the tail of the window is trimmed: {size}");

    let mut r = SegmentReader::open(&mut io, path, LAYOUT).unwrap();
    assert!(r.is_sealed());
    {
        let footer = r.footer().expect("the footer reads");
        assert_eq!(footer.blocks.len(), 1);
        assert_eq!(footer.blocks[0].offset, offset);
    }
    assert_eq!(r.block_offsets(&mut io), vec![offset]);
}

#[test]
fn reader_falls_back_to_scan_without_footer() {
    let disk = Disk::new();
    let mut io = disk.io();
    let mut w = segment(&mut io, 1_000, 16 * 1024);
    let o1 = append(&mut w, &mut io, 1_000, 2);
    let o2 = append(&mut w, &mut io, 2_000, 2);
    w.sync(&mut io).unwrap();
    let path = w.path();
    w.close_unsealed(&mut io).unwrap();

    let mut r = SegmentReader::open(&mut io, path, LAYOUT).unwrap();
    assert!(!r.is_sealed());
    assert_eq!(r.block_offsets(&mut io), vec![o1, o2], "the walk found the blocks");

    let block = r.read_block_at(o1, &mut io).unwrap().unwrap();
    assert_eq!(block.next, o2);
    assert_eq!(block.header.count, 2);
    let contents = io.read_records(path, o1, block.header).unwrap();
    assert_eq!(contents.records.len(), 2);
}

#[test]
fn refuses_to_overwrite_existing_segment() {
    let disk = Disk::new();
    let mut io = disk.io();
    segment(&mut io, 1_000, 8 * 1024);
    let again = SegmentWriter::create(&mut io, place(), header(1_000), 8 * 1024, LAYOUT);
    assert!(again.unwrap_err().is_already_exists(), "creating it again must fail");
}

#[test]
fn fits_reserves_room_for_terminator() {
    let disk = Disk::new();
    let mut io = disk.io();
    let w = segment(&mut io, 0, 40 + 200);
    assert!(w.fits(100));
    assert!(!w.fits(200 - 32 + 1), "room for the zero terminator must remain");
    assert!(w.fits(200 - 32));
}

// -- the writer's loop -------------------------------------------------------

fn place_of(ns: NsId) -> Place {
    Place { ns, channel: ChannelIdx(0), staging: false }
}

/// A loop with a single budget group; `None` means a budget without a limit.
fn empty_loop(group_budget: Option<u64>) -> WriterLoop {
    let groups =
        vec![GroupBudget { budget_bytes: group_budget.unwrap_or(u64::MAX), root_key: 0 }];
    WriterLoop::new(groups, None, LAYOUT)
}

fn add_namespace_at(
    w: &mut WriterLoop,
    io: &mut Io<Disk>,
    name: &str,
    channels: Vec<ChannelConfig>,
    boot: u32,
) -> NsId {
    let channels = channels
        .into_iter()
        .enumerate()
        .map(|(i, config)| ChannelSpec {
            dir: format!("/{name}/ch{i}"),
            group: 0,
            quota_bytes: None,
            config,
        })
        .collect();
    let setup = NsSetup {
        name: name.to_owned(),
        protocol_version: ProtocolVersion(1),
        store_id: 0,
        boot: BootCounter(boot),
        channels,
    };
    w.register(setup, io).unwrap()
}

fn add_namespace(
    w: &mut WriterLoop,
    io: &mut Io<Disk>,
    name: &str,
    channels: Vec<ChannelConfig>,
) -> NsId {
    add_namespace_at(w, io, name, channels, 0)
}

fn loop_with_one_channel(io: &mut Io<Disk>, config: ChannelConfig) -> (WriterLoop, NsId) {
    let mut w = empty_loop(None);
    let ns = add_namespace(&mut w, io, "ns", vec![config]);
    (w, ns)
}

fn channel_of(w: &WriterLoop, ns: NsId) -> &ChannelState {
    &w.namespaces[ns.0 as usize].as_ref().unwrap().channels[0]
}

fn channel_mut(w: &mut WriterLoop, ns: NsId) -> &mut ChannelState {
    &mut w.namespaces[ns.0 as usize].as_mut().unwrap().channels[0]
}

fn flush(w: &mut WriterLoop, ns: NsId, io: &mut Io<Disk>) {
    let ch = &mut w.namespaces[ns.0 as usize].as_mut().unwrap().channels[0];
    ch.flush_block(&mut w.counters, io).unwrap();
}

fn open_segment(w: &WriterLoop, ns: NsId) -> SegmentFile {
    channel_of(w, ns).segment.as_ref().expect("the segment is open").path()
}

fn inventory_files(w: &WriterLoop, ns: NsId) -> Vec<SegmentFile> {
    let ch = channel_of(w, ns);
    (0..ch.inventory.len())
        .map(|i| SegmentFile { place: ch.place, name: ch.inventory.get(i).unwrap().name })
        .collect()
}

fn sample(ns: NsId, at: u64, value: OwnedValue) -> Staged {
    Staged {
        ns,
        channel: ChannelIdx(0),
        at: Micros(at),
        record: StagedRecord::Sample { metric: MetricId(1), value },
    }
}

fn blob(ns: NsId, at: u64, len: usize) -> Staged {
    sample(ns, at, OwnedValue::Blob(Payload::from_vec(vec![0xA5; len])))
}

fn text(ns: NsId, at: u64, text: &str) -> Staged {
    Staged {
        ns,
        channel: ChannelIdx(0),
        at: Micros(at),
        record: StagedRecord::Text {
            level: Level::Info,
            span: None,
            target: "test".into(),
            text: text.into(),
        },
    }
}

fn noise() -> Payload {
    Payload::from_vec((0..(1u64 << 20)).map(|i| (i * 2654435761u64) as u8).collect())
}

/// A channel with small segments and no compression.
fn dense_channel(channel_budget: u64) -> ChannelConfig {
    ChannelConfig {
        segment_bytes: 1 << 20,
        block_max_bytes: 64 << 10,
        compression: Compression::Plain,
        ..ChannelConfig::new(channel_budget)
    }
}

#[test]
fn idle_channel_gives_its_buffers_back() {
    let disk = Disk::new();
    let mut io = disk.io();
    let mut counters = Counters::default();
    let mut ch = ChannelState::new(
        ChannelSpec {
            dir: "/ch".to_owned(),
            group: 0,
            quota_bytes: None,
            config: ChannelConfig::new(64 * 1024 * 1024),
        },
        place(),
        0,
        SegmentIdentity {
            protocol_version: ProtocolVersion(1),
            store_id: 0,
            boot: BootCounter(0),
        },
        LAYOUT,
        &mut counters,
        &mut io,
    )
    .unwrap();

    ch.push(&sample(NsId(0), 0, OwnedValue::Blob(noise())), &mut counters, &mut io).unwrap();
    ch.flush_block(&mut counters, &mut io).unwrap();
    let held = io.held_bytes(place());
    assert!(held >= 2 << 20, "after a blob the buffers must be inflated: {held}");

    io.release_buffers(place());
    assert_eq!(io.held_bytes(place()), 0, "an idle channel has no right to hold a peak");

    ch.push(&sample(NsId(0), 10, OwnedValue::U64(7)), &mut counters, &mut io).unwrap();
    ch.flush_block(&mut counters, &mut io).unwrap();
    assert_eq!(counters.snapshot().dropped, 0);
    assert_eq!(counters.snapshot().blocks_written, 2);
}

#[test]
fn a_declared_memory_ceiling_takes_the_buffers_back() {
    let disk = Disk::new();
    let mut io = disk.io();
    let config =
        ChannelConfig { block_max_bytes: 4096, ..ChannelConfig::new(16 * 1024 * 1024) };
    let (mut w, ns) = loop_with_one_channel(&mut io, config);
    w.buffer_ceiling = Some(16 * 1024);

    w.batch.push(sample(ns, 1, OwnedValue::Blob(noise())));
    w.apply_batch(&mut io);
    assert!(disk.held(place_of(ns)) > 1 << 20, "a megabyte blob must inflate the buffers");

    w.tick(&mut io);
    assert!(disk.held(place_of(ns)) <= 16 * 1024, "the ceiling must give memory back");
    assert_eq!(w.counters.snapshot().dropped, 0, "the ceiling loses no records");
    assert!(w.counters.snapshot().blocks_written >= 1);
    assert_eq!(w.counters.snapshot().buffer_overruns, 0);

    w.batch.push(sample(ns, 2, OwnedValue::U64(7)));
    w.apply_batch(&mut io);
    assert!(disk.held(place_of(ns)) > 0, "the channel is alive and goes on writing");
}

#[test]
fn an_unmeetable_memory_ceiling_is_counted_not_paid_for_with_records() {
    let disk = Disk::new();
    let mut io = disk.io();
    let config =
        ChannelConfig { block_max_bytes: 4096, ..ChannelConfig::new(16 * 1024 * 1024) };
    let (mut w, ns) = loop_with_one_channel(&mut io, config);
    w.buffer_ceiling = Some(16 * 1024);

    w.batch.push(sample(ns, 1, OwnedValue::Blob(noise())));
    w.apply_batch(&mut io);
    // A loaded block with no segment to take it.
    {
        let bytes = noise();
        let record =
            Record::Sample { metric: MetricId(1), value: Value::Blob(bytes.as_slice()) };
        let raw_len = io.push_record(place_of(ns), Micros(2), &record).unwrap();
        let now = io.now();
        let ch = channel_mut(&mut w, ns);
        ch.segment = None;
        ch.block.count = 1;
        ch.block.raw_len = raw_len;
        ch.block.first = Micros(2);
        ch.block.last = Micros(2);
        ch.block_opened = Some(now);
    }

    w.tick(&mut io);
    assert!(
        disk.held(place_of(ns)) > 1 << 20,
        "a loaded accumulator with no segment must not be touched"
    );
    assert_eq!(w.counters.snapshot().dropped, 0, "not one record sacrificed");
    assert!(
        w.counters.snapshot().buffer_overruns >= 1,
        "an unmeetable ceiling must be named"
    );
}

#[test]
fn an_immediate_channel_keeps_its_buffers_between_batches() {
    let disk = Disk::new();
    let mut io = disk.io();
    let (mut w, ns) =
        loop_with_one_channel(&mut io, ChannelConfig::critical(16 * 1024 * 1024));

    w.batch.push(sample(ns, 1, OwnedValue::U64(7)));
    w.apply_batch(&mut io);

    let held = disk.held(place_of(ns));
    assert!(held > 0, "the buffers were allocated for the block written");
    assert_eq!(w.counters.snapshot().syncs, 1, "the group commit happened");

    w.tick(&mut io);
    assert_eq!(disk.held(place_of(ns)), held, "the buffers must survive a serviced batch");
    assert_eq!(w.active.len(), 1, "the channel stays watched");

    let now = io.now();
    channel_mut(&mut w, ns).idle_since = now.checked_sub(RELEASE_AFTER * 2);
    w.tick(&mut io);
    assert_eq!(disk.held(place_of(ns)), 0, "a channel that sat idle gives its memory back");
    assert!(channel_of(&w, ns).segment.is_some(), "but it holds the segment");
    assert_eq!(w.active.len(), 1, "and stays watched");
}

#[test]
fn a_channel_that_went_quiet_hands_back_its_segment() {
    let disk = Disk::new();
    let mut io = disk.io();
    let (mut w, ns) = loop_with_one_channel(&mut io, ChannelConfig::new(16 * 1024 * 1024));
    assert!(disk.0.borrow().files.is_empty(), "before the first record a channel holds nothing");

    w.batch.push(sample(ns, 1, OwnedValue::U64(7)));
    w.apply_batch(&mut io);
    let path = open_segment(&w, ns);
    let full = disk.len(path);
    assert_eq!(full, 64 << 10, "the reserve was taken as a one-block window");
    assert!(full < channel_of(&w, ns).config.segment_bytes);
    assert!(disk.is_open(path));

    let now = io.now();
    {
        let ch = channel_mut(&mut w, ns);
        ch.block_opened = now.checked_sub(60 * SECOND);
        ch.last_sync = now - 60 * SECOND;
    }
    w.tick(&mut io);
    assert!(channel_of(&w, ns).segment.is_some(), "a short pause does not take the segment");

    channel_mut(&mut w, ns).idle_since = now.checked_sub(PARK_AFTER * 2);
    w.tick(&mut io);

    assert!(channel_of(&w, ns).segment.is_none(), "the segment was given up");
    assert!(w.active.is_empty(), "and the channel left the serviced list");
    assert!(!disk.is_open(path), "the descriptor went back to the system");
    let sealed = disk.len(path);
    assert!(sealed < full / 100, "the file is truncated to its data: {sealed} against {full}");
    let reader = SegmentReader::open(&mut io, path, LAYOUT).unwrap();
    assert!(!reader.is_sealed(), "a released segment must stay continuable");

    w.batch.push(sample(ns, 2, OwnedValue::U64(7)));
    w.apply_batch(&mut io);
    assert_eq!(open_segment(&w, ns), path, "waking must continue the earlier segment");
    assert_eq!(disk.0.borrow().files.len(), 1, "silence has no right to breed files");
    assert_eq!(w.counters.snapshot().dropped, 0);

    flush(&mut w, ns, &mut io);
    let scan = Scan::of_path(&mut io, path, LAYOUT).unwrap();
    assert_eq!(scan.block_count, 2, "two blocks: before the silence and after");
    let reader = SegmentReader::open(&mut io, path, LAYOUT).unwrap();
    assert_eq!(reader.header().base, Micros(1), "and it is one and the same file");
}

#[test]
fn a_block_that_opens_a_segment_is_synced_with_its_batch() {
    let disk = Disk::new();
    let mut io = disk.io();
    let config = ChannelConfig {
        segment_bytes: 1 << 20,
        block_max_bytes: 64 << 10,
        ..ChannelConfig::critical(16 << 20)
    };
    let (mut w, ns) = loop_with_one_channel(&mut io, config);
    for at in 1..4 {
        w.batch.push(blob(ns, at, 900 << 10));
        assert!(w.apply_batch(&mut io));
        let s = disk.0.borrow();
        assert_eq!(s.files.len(), at as usize, "each block opens a segment of its own");
        assert!(s.files.values().all(|f| f.synced), "nothing of the batch is owed to the medium");
    }
    assert_eq!(w.counters.snapshot().dropped, 0);
}

/// A message of an event with a payload of a length.
fn message(ns: NsId, at: u64, event: u16, len: usize) -> Staged {
    Staged {
        ns,
        channel: ChannelIdx(0),
        at: Micros(at),
        record: StagedRecord::Message {
            event: EventId(event),
            span: None,
            payload: Payload::from_vec(vec![0x5A; len]),
        },
    }
}

#[test]
fn a_sealed_segment_lists_each_block_and_type_and_numbers_from_the_first() {
    let disk = Disk::new();
    let mut io = disk.io();
    let (mut w, ns) = loop_with_one_channel(&mut io, dense_channel(64 << 20));
    // The third block begins in the first segment and has no room there.
    let batch = vec![
        message(ns, 1, 7, 64 << 10),
        blob(ns, 2, 400 << 10),
        message(ns, 3, 9, 900 << 10),
        message(ns, 4, 5, 64 << 10),
    ];
    for item in batch {
        w.batch.push(item);
        w.apply_batch(&mut io);
    }
    assert_eq!(inventory_files(&w, ns).len(), 2);
    w.finish(&mut io);
    assert_eq!(w.counters.snapshot().dropped, 0);
    assert_eq!(disk.records(place_of(ns)), 4);

    let expected: [(&[u64], &[u16], &[u16]); 2] = [(&[1, 2], &[7], &[1]), (&[3, 4], &[5, 9], &[])];
    let s = disk.0.borrow();
    for (file, (times, events, metrics)) in inventory_files(&w, ns).into_iter().zip(expected) {
        let f = &s.files[&file];
        let (_, _, footer) = f.footer.as_ref().expect("the segment is sealed");
        let seqs: Vec<u32> = f.blocks.values().map(|b| b.header.seq).collect();
        assert_eq!(seqs, [0, 1], "numbering restarts in every segment");
        assert_eq!(footer.blocks.len(), f.blocks.len());
        for (entry, (at, block)) in footer.blocks.iter().zip(&f.blocks) {
            assert_eq!((entry.offset, entry.base), (*at, block.header.base));
            assert_eq!((entry.last, entry.count), (block.records.last().unwrap().0, 1));
        }
        let bases: Vec<u64> = footer.blocks.iter().map(|b| b.base.0).collect();
        assert_eq!(bases, times);
        assert_eq!(footer.events, events.iter().map(|e| EventId(*e)).collect::<Vec<_>>());
        assert_eq!(footer.metrics, metrics.iter().map(|m| MetricId(*m)).collect::<Vec<_>>());
    }
}

#[test]
fn a_flush_refused_at_its_deadline_is_counted_once_and_frees_the_medium() {
    let disk = Disk::new();
    let mut io = disk.io();
    let mut w = empty_loop(None);
    let config = ChannelConfig { block_max_bytes: 512 << 10, ..dense_channel(64 << 20) };
    let hoarder = add_namespace(&mut w, &mut io, "hoarder", vec![dense_channel(64 << 20)]);
    let ns = add_namespace(&mut w, &mut io, "ns", vec![config]);
    for i in 0..40 {
        w.batch.push(blob(hoarder, 1_000 + i, 64 << 10));
    }
    w.apply_batch(&mut io);
    let oldest = inventory_files(&w, hoarder)[0];
    w.batch.push(blob(ns, 9_000, 500 << 10));
    w.apply_batch(&mut io);
    assert_eq!(channel_of(&w, ns).block.count, 1, "the block waits for its deadline");

    let before = w.counters.snapshot();
    disk.0.borrow_mut().free = Some(0);
    disk.pass(channel_of(&w, ns).config.flush_interval.nanos);
    w.tick(&mut io);
    let after = w.counters.snapshot();
    assert_eq!(after.io_errors, before.io_errors + 1);
    assert_eq!(after.dropped, before.dropped + 1, "the refusal is the reason for the loss");
    assert!(!disk.has(oldest), "the medium that ran out of space is relieved");
}

/// A file at a channel's place that keeps its name taken.
fn squat(disk: &Disk, ns: NsId, base: u64) {
    let file = SegmentFile {
        place: place_of(ns),
        name: SegmentName { boot: BootCounter(0), base: Micros(base) },
    };
    let header = SegmentHeader {
        protocol_version: ProtocolVersion(1),
        boot: BootCounter(0),
        base: Micros(base),
        store_id: 0,
    };
    disk.io().create(file, header, 4096).unwrap();
}

#[test]
fn a_taken_name_costs_a_microsecond_each() {
    let disk = Disk::new();
    let mut io = disk.io();
    let (mut w, ns) = loop_with_one_channel(&mut io, dense_channel(64 << 20));
    w.push(&text(ns, 500, "first"), &mut io).unwrap();
    assert_eq!(open_segment(&w, ns).name.base, Micros(500), "a free name is taken as it is");

    let (mut w, ns) = loop_with_one_channel(&mut io, dense_channel(64 << 20));
    squat(&disk, ns, 501);
    w.push(&text(ns, 500, "again"), &mut io).unwrap();
    assert_eq!(open_segment(&w, ns).name.base, Micros(502), "two names are taken");
    assert_eq!(channel_of(&w, ns).last_time, Micros(502));
    assert_eq!(w.counters.snapshot().dropped, 0);
}

#[test]
fn names_that_run_out_are_reported_with_the_directory() {
    let disk = Disk::new();
    let mut io = disk.io();
    let (mut w, ns) = loop_with_one_channel(&mut io, dense_channel(64 << 20));
    for base in 0..64 {
        squat(&disk, ns, 700 + base);
    }
    match w.push(&text(ns, 700, "nowhere to go"), &mut io) {
        Err(Error::Corrupt { path, reason }) => {
            assert_eq!(path, "/ns/ch0");
            assert_eq!(reason, NO_NAME);
        }
        other => panic!("no name is free: {other:?}"),
    }
    assert_eq!(w.counters.snapshot().dropped, 1);
    w.push(&text(ns, 700, "time went on"), &mut io).expect("the next name is free");
    assert_eq!(open_segment(&w, ns).name.base, Micros(764));
}

#[test]
fn a_new_segment_without_space_costs_the_oldest() {
    let disk = Disk::new();
    let mut io = disk.io();
    let (mut w, ns) = loop_with_one_channel(&mut io, dense_channel(64 << 20));
    for i in 0..48 {
        w.push(&blob(ns, 1_000 + i, 64 << 10), &mut io).unwrap();
    }
    w.namespaces[0].as_mut().unwrap().channels[0].seal_segment(&mut w.counters, &mut io).unwrap();
    let history = inventory_files(&w, ns);
    assert!(history.len() >= 3, "{history:?}");
    let before = w.counters.snapshot();

    disk.0.borrow_mut().refuse_space = 2;
    w.push(&blob(ns, 9_000, 64 << 10), &mut io).unwrap();
    let after = w.counters.snapshot();
    assert!(!disk.has(history[0]) && !disk.has(history[1]) && disk.has(history[2]));
    assert_eq!(after.segments_rotated, before.segments_rotated + 2);
    assert_eq!(after.segments_created, before.segments_created + 1);
    assert_eq!(after.dropped, before.dropped);
    assert_eq!(open_segment(&w, ns).name.base, Micros(9_000), "the name does not move");

    // With nothing left to give up the want of space is the answer.
    let (mut w, ns) = loop_with_one_channel(&mut io, dense_channel(64 << 20));
    channel_mut(&mut w, ns).inventory = Inventory::new();
    disk.0.borrow_mut().refuse_space = 1;
    let e = w.push(&blob(ns, 20_000, 8), &mut io).unwrap_err();
    assert!(e.is_no_space(), "{e:?}");
}

#[test]
fn a_notice_is_flushed_in_the_turn_that_writes_it() {
    let disk = Disk::new();
    let mut io = disk.io();
    let config = ChannelConfig { flush_interval: Interval::zero(), ..dense_channel(64 << 20) };
    let (mut w, ns) = loop_with_one_channel(&mut io, config);
    w.report_losses(ns, ChannelIdx(0), 3);
    w.tick(&mut io);
    let texts = disk.texts(place_of(ns));
    assert_eq!(texts.len(), 1, "the clock is read once the notice is written");
    assert!(texts[0].contains('3'), "{texts:?}");
    assert_eq!(channel_of(&w, ns).block.count, 0);
}

#[test]
fn a_release_leaves_the_other_namespaces_as_they_are() {
    let disk = Disk::new();
    let mut io = disk.io();
    let mut w = empty_loop(None);
    let gone = add_namespace(&mut w, &mut io, "gone", vec![dense_channel(64 << 20)]);
    let stays = add_namespace(&mut w, &mut io, "stays", vec![dense_channel(64 << 20)]);
    for at in 1..=3 {
        w.batch.push(text(gone, at, "leaves"));
        w.batch.push(text(stays, at, "stays"));
    }
    w.apply_batch(&mut io);
    let open = open_segment(&w, stays);
    w.release(gone, &mut io);
    assert!(w.namespaces[gone.0 as usize].is_none());
    assert_eq!(disk.texts(place_of(gone)), ["leaves"; 3], "what it had is on the medium");
    assert!(w.active.iter().all(|(i, _)| *i != gone.0 as usize));
    let ch = channel_of(&w, stays);
    assert_eq!(ch.block.count, 3, "the neighbour's block goes on");
    assert_eq!(open_segment(&w, stays), open);
    assert!(disk.is_open(open));
    assert!(w.active.contains(&(stays.0 as usize, 0)));
    assert_eq!(w.counters.snapshot().dropped, 0);
}

#[test]
fn a_segment_taken_back_keeps_its_file_whatever_its_header_says() {
    let disk = Disk::new();
    let mut io = disk.io();
    let (mut w, ns) = loop_with_one_channel(&mut io, ChannelConfig::new(16 * 1024 * 1024));
    w.batch.push(sample(ns, 1, OwnedValue::U64(7)));
    w.apply_batch(&mut io);
    let path = open_segment(&w, ns);
    {
        let ch = &mut w.namespaces[ns.0 as usize].as_mut().unwrap().channels[0];
        ch.park_segment(&mut w.counters, &mut io).unwrap();
    }
    disk.0.borrow_mut().files.get_mut(&path).unwrap().header.base = Micros(999);

    w.batch.push(sample(ns, 2, OwnedValue::U64(8)));
    w.apply_batch(&mut io);
    assert_eq!(open_segment(&w, ns), path);
    assert_eq!(disk.0.borrow().files.len(), 1);
    assert_eq!(w.counters.snapshot().io_errors, 0);
}

#[test]
fn the_store_ceiling_reaches_across_namespaces() {
    let cap: u64 = 3 << 20;
    let disk = Disk::new();
    let mut io = disk.io();
    let mut w = empty_loop(Some(cap));
    let quiet = add_namespace(&mut w, &mut io, "quiet", vec![dense_channel(64 << 20)]);
    let noisy = add_namespace(&mut w, &mut io, "noisy", vec![dense_channel(64 << 20)]);

    w.batch.push(blob(quiet, 1, 8));
    w.apply_batch(&mut io);
    let quiet_path = open_segment(&w, quiet);
    {
        let ch = &mut w.namespaces[quiet.0 as usize].as_mut().unwrap().channels[0];
        ch.seal_segment(&mut w.counters, &mut io).unwrap();
        assert!(ch.inventory.total_bytes() < u128::from(ch.config.budget_bytes / 1000));
    }
    assert!(disk.has(quiet_path));

    for i in 0..80 {
        w.batch.push(blob(noisy, 1_000 + i, 64 << 10));
    }
    w.apply_batch(&mut io);
    assert!(w.group_bytes(0) > u128::from(cap), "otherwise there is nothing to evict");

    w.tick(&mut io);
    assert!(!disk.has(quiet_path), "the oldest across the store is evicted");
    assert!(w.group_bytes(0) <= u128::from(cap), "the store must fit the declared ceiling");
    assert!(disk.has(open_segment(&w, noisy)), "the active segment is untouchable");
    assert_eq!(w.counters.snapshot().budget_overruns, 0);
}

#[test]
fn a_segment_left_parked_is_sealed_by_the_next_run() {
    let disk = Disk::new();
    let mut io = disk.io();
    let mut w = empty_loop(None);
    let ns = add_namespace(&mut w, &mut io, "ns", vec![dense_channel(64 << 20)]);
    w.batch.push(blob(ns, 1, 64));
    w.apply_batch(&mut io);
    let path = open_segment(&w, ns);

    let now = io.now();
    {
        let ch = channel_mut(&mut w, ns);
        ch.block_opened = now.checked_sub(60 * SECOND);
        ch.last_sync = now - 60 * SECOND;
    }
    w.tick(&mut io);
    channel_mut(&mut w, ns).idle_since = now.checked_sub(PARK_AFTER * 2);
    w.tick(&mut io);
    assert!(channel_of(&w, ns).parked_segment.is_some(), "the segment was released");
    assert!(!SegmentReader::open(&mut io, path, LAYOUT).unwrap().is_sealed(), "and not sealed");
    drop(w);

    let mut next = empty_loop(None);
    add_namespace_at(&mut next, &mut io, "ns", vec![dense_channel(64 << 20)], 1);

    let reader = SegmentReader::open(&mut io, path, LAYOUT).unwrap();
    assert!(reader.is_sealed(), "the next start must seal it");
    let footer = reader.footer().expect("the footer reads");
    assert_eq!(footer.metrics, vec![MetricId(1)], "and name the types");
    assert_eq!(footer.blocks.len(), 1, "the block index is there");
}

#[test]
fn no_space_is_freed_where_it_is_taken_not_where_it_is_needed() {
    let disk = Disk::new();
    let mut io = disk.io();
    let mut w = empty_loop(None);
    let hoarder = add_namespace(&mut w, &mut io, "hoarder", vec![dense_channel(64 << 20)]);
    let newcomer = add_namespace(&mut w, &mut io, "newcomer", vec![dense_channel(64 << 20)]);

    for i in 0..64 {
        w.batch.push(blob(hoarder, 1_000 + i, 64 << 10));
    }
    w.apply_batch(&mut io);
    let hoarded = inventory_files(&w, hoarder);
    assert!(hoarded.len() >= 2, "otherwise there is nothing to evict: {hoarded:?}");
    let oldest = hoarded[0];

    disk.0.borrow_mut().refuse_space = 1;
    w.batch.push(blob(newcomer, 9_000, 8));
    w.apply_batch(&mut io);

    assert!(channel_of(&w, newcomer).segment.is_none(), "the space ran out");
    assert_eq!(w.counters.snapshot().dropped, 1, "the record was lost and accounted for");
    assert!(disk.has(oldest), "nobody has freed anything yet");

    w.tick(&mut io);
    assert!(!disk.has(oldest), "space is freed where it is taken: at the neighbour");

    w.batch.push(blob(newcomer, 9_001, 8));
    w.apply_batch(&mut io);
    assert!(channel_of(&w, newcomer).segment.is_some(), "the write must go through");
    assert_eq!(w.counters.snapshot().dropped, 1, "there was no second loss");
}

#[test]
fn the_budget_counts_what_a_segment_occupies_not_what_it_may_grow_into() {
    let disk = Disk::new();
    let mut io = disk.io();
    let budget = 4 * ChannelConfig::new(0).segment_bytes / 2;
    let mut w = empty_loop(Some(budget));
    for i in 0..4 {
        let name = format!("ns-{i}");
        let ns = add_namespace(&mut w, &mut io, &name, vec![ChannelConfig::new(64 << 20)]);
        w.batch.push(blob(ns, 1, 8));
        w.apply_batch(&mut io);
        flush(&mut w, ns, &mut io);
    }

    let occupied = w.group_bytes(0);
    assert!(occupied < u128::from(budget), "four channels took {occupied} of {budget}");
    assert!(4 * ChannelConfig::new(0).segment_bytes > budget);

    let paths: Vec<SegmentFile> = (0..4).map(|i| open_segment(&w, NsId(i))).collect();
    w.tick(&mut io);
    assert_eq!(w.counters.snapshot().budget_overruns, 0);
    assert_eq!(w.counters.snapshot().segments_rotated, 0, "there is nothing to evict");
    for path in paths {
        assert!(disk.has(path), "the live segment is untouched: {path:?}");
    }
}

#[test]
fn a_window_that_cannot_grow_costs_the_oldest_segment_not_the_block() {
    let disk = Disk::new();
    let mut io = disk.io();
    let mut w = empty_loop(Some(u64::MAX));
    let ns = add_namespace(&mut w, &mut io, "ns", vec![dense_channel(64 << 20)]);

    for i in 0..48 {
        w.batch.push(blob(ns, 1_000 + i, 64 << 10));
    }
    w.apply_batch(&mut io);
    let history = inventory_files(&w, ns);
    assert!(history.len() >= 2, "otherwise there is nothing to pay with: {history:?}");
    let before = w.counters.snapshot();

    disk.0.borrow_mut().refuse_space = 1;
    for i in 0..3 {
        w.batch.push(blob(ns, 9_000 + i, 64 << 10));
    }
    w.apply_batch(&mut io);
    disk.0.borrow_mut().refuse_space = 0;

    let after = w.counters.snapshot();
    assert_eq!(after.segments_created, before.segments_created, "the window was refused");
    assert_eq!(after.dropped, before.dropped, "the block is not lost");
    assert!(after.segments_rotated > before.segments_rotated, "the oldest must be given up");
    assert!(!disk.has(history[0]), "it is the oldest that was given up");
}

#[test]
fn a_window_that_cannot_grow_with_nothing_to_give_counts_the_loss() {
    let disk = Disk::new();
    let mut io = disk.io();
    let mut w = empty_loop(Some(u64::MAX));
    let ns = add_namespace(&mut w, &mut io, "ns", vec![dense_channel(64 << 20)]);

    w.batch.push(blob(ns, 1, 8));
    w.apply_batch(&mut io);
    let path = open_segment(&w, ns);
    flush(&mut w, ns, &mut io);
    let before = w.counters.snapshot();
    assert_eq!(channel_of(&w, ns).inventory.len(), 1);

    disk.0.borrow_mut().free = Some(0);
    w.batch.push(blob(ns, 9_000, 64 << 10));
    w.apply_batch(&mut io);
    disk.0.borrow_mut().free = None;

    let after = w.counters.snapshot();
    assert!(after.dropped > before.dropped, "the loss must be counted");
    assert!(after.io_errors > before.io_errors, "and so must the medium's refusal");
    assert!(disk.has(path), "the segment that was being written to is intact");
    assert_ne!(w.pressured_roots, 0, "the medium is marked as full");
}

#[test]
fn writing_after_a_park_counts_against_the_ceiling_again() {
    let disk = Disk::new();
    let mut io = disk.io();
    let mut w = empty_loop(Some(u64::MAX));
    let quiet = add_namespace(&mut w, &mut io, "quiet", vec![dense_channel(64 << 20)]);
    let noisy = add_namespace(&mut w, &mut io, "noisy", vec![dense_channel(64 << 20)]);

    w.batch.push(blob(quiet, 1, 8));
    for i in 0..64 {
        w.batch.push(blob(noisy, 1_000 + i, 64 << 10));
    }
    w.apply_batch(&mut io);

    let now = io.now();
    channel_mut(&mut w, quiet).idle_since = now.checked_sub(RELEASE_AFTER * 2);
    assert_eq!(w.park_idle(now, RELEASE_AFTER, &mut io), 1, "the segment was released");

    let cap = w.group_bytes(0);
    w.groups[0].budget_bytes = cap as u64;
    w.tick(&mut io);
    assert_eq!(w.group_bytes(0), cap, "so far everything is where it was");

    w.batch.push(blob(quiet, 2, 8));
    w.apply_batch(&mut io);
    assert!(channel_of(&w, quiet).segment.is_some(), "the segment came back into work");
    assert_eq!(w.group_bytes(0), cap, "waking without writing takes no space");

    flush(&mut w, quiet, &mut io);
    assert!(w.group_bytes(0) > cap, "otherwise the test is empty: the write must take space");

    w.tick(&mut io);
    assert!(w.group_bytes(0) <= cap, "the ceiling must be restored");
}

#[test]
fn an_unreachable_ceiling_is_reported_rather_than_pretended() {
    let disk = Disk::new();
    let mut io = disk.io();
    let mut w = empty_loop(Some(8 << 10));
    let ns = add_namespace(&mut w, &mut io, "ns", vec![dense_channel(64 << 20)]);

    w.batch.push(blob(ns, 1, 8));
    w.apply_batch(&mut io);
    let path = open_segment(&w, ns);

    w.tick(&mut io);
    assert!(disk.has(path), "a segment being written to is not deleted");
    assert_eq!(w.counters.snapshot().budget_overruns, 1, "it must be visible from outside");
    assert_eq!(w.counters.snapshot().dropped, 0, "and this is not a loss of records");
}

#[test]
fn sync_never_throws_away_what_it_could_not_keep_up_with() {
    let disk = Disk::new();
    let mut io = disk.io();
    let (mut w, ns) = loop_with_one_channel(&mut io, ChannelConfig::new(16 * 1024 * 1024));

    let n = DRAIN_LIMIT + 1;
    let (tx, rx) = crossbeam_channel::bounded::<Staged>(n);
    let (_ctx, crx) = crossbeam_channel::bounded::<Staged>(1);
    for _ in 0..n {
        tx.send(sample(ns, 1, OwnedValue::U64(1))).unwrap();
    }

    let (mut normal, mut critical) = (Inbox::new(rx.clone()), Inbox::new(crx));
    let drained =
        w.drain_pending_rounds(&mut normal, &mut critical, Leftovers::Keep, 1, &mut io);
    assert!(!drained.dry, "one pass is allotted and there are more records");
    assert_eq!(rx.len(), 1, "the remainder stayed in the queue");
    assert_eq!(w.counters.snapshot().dropped, 0, "nothing is lost");
    assert_eq!(w.counters.snapshot().records_written, DRAIN_LIMIT as u64);

    for _ in 0..DRAIN_LIMIT {
        tx.send(sample(ns, 1, OwnedValue::U64(1))).unwrap();
    }
    let before = w.counters.snapshot().dropped;
    let drained =
        w.drain_pending_rounds(&mut normal, &mut critical, Leftovers::Discard, 1, &mut io);
    assert!(!drained.dry, "one pass is allotted and there are more records");
    assert_eq!(drained.discarded, 1);
    assert_eq!(rx.len(), 0, "the queue is emptied");
    assert_eq!(w.counters.snapshot().dropped - before, 1, "the loss is accounted for");
}

#[test]
fn a_stopping_store_refuses_instead_of_swallowing() {
    let (tx, _rx) = crossbeam_channel::bounded::<Staged>(8);
    let (ctx, _crx) = crossbeam_channel::bounded::<Staged>(8);
    let mut writer = Writer::new(tx, ctx);
    let mut counters = Counters::default();
    let mut drops = DropCounters::new(1);

    let e = writer
        .write(sample(NsId(0), 1, OwnedValue::U64(1)), false, true, &mut drops, &mut counters)
        .expect_err("after the stop there is nowhere to write");
    assert!(matches!(e, Error::ShuttingDown), "the cause is named for what it is: {e:?}");
    assert!(e.loses_record(), "and this is a loss, not a defect in the call");
    assert_eq!(counters.snapshot().dropped, 1, "the loss is accounted for");
    assert_eq!(drops.take(ChannelIdx(0)), 1, "and marked in its own channel");
}

#[test]
fn a_full_queue_refuses_and_a_critical_one_counts_the_wait() {
    let (tx, rx) = crossbeam_channel::bounded::<Staged>(1);
    let (ctx, crx) = crossbeam_channel::bounded::<Staged>(1);
    let mut writer = Writer::new(tx, ctx);
    let mut counters = Counters::default();
    let mut drops = DropCounters::new(1);
    let item = |at| sample(NsId(0), at, OwnedValue::U64(at));

    writer.write(item(1), false, false, &mut drops, &mut counters).unwrap();
    let e = writer.write(item(2), false, false, &mut drops, &mut counters).unwrap_err();
    assert!(matches!(e, Error::QueueFull), "got {e:?}");
    assert_eq!(rx.try_recv().unwrap().at, Micros(1), "the first record is in the queue");

    writer.write(item(3), true, false, &mut drops, &mut counters).unwrap();
    assert_eq!(counters.backpressure_waits, 0, "there was room");
    drop(crx);
    drop(rx);
    let e = writer.write(item(4), true, false, &mut drops, &mut counters).unwrap_err();
    assert!(matches!(e, Error::WriterDead), "got {e:?}");
    assert_eq!(counters.dropped, 2);
    assert_eq!(drops.take(ChannelIdx(0)), 1, "a dead writer announces nothing");
}

#[test]
fn a_batch_lands_in_time_order_within_a_channel() {
    let disk = Disk::new();
    let mut io = disk.io();
    let (mut w, ns) = loop_with_one_channel(&mut io, ChannelConfig::new(16 * 1024 * 1024));
    for (at, what) in [(30, "c"), (10, "a"), (20, "b"), (10, "a2")] {
        w.batch.push(text(ns, at, what));
    }
    w.apply_batch(&mut io);
    flush(&mut w, ns, &mut io);
    assert_eq!(disk.texts(place_of(ns)), vec!["a", "a2", "b", "c"]);
}

#[test]
fn time_from_the_past_is_pulled_forward() {
    let disk = Disk::new();
    let mut io = disk.io();
    let (mut w, ns) = loop_with_one_channel(&mut io, ChannelConfig::new(16 * 1024 * 1024));
    for at in [30, 10, 40] {
        w.take_one(sample(ns, at, OwnedValue::U64(at)), &mut io);
    }
    flush(&mut w, ns, &mut io);
    let s = disk.0.borrow();
    let times: Vec<u64> = s
        .files
        .values()
        .flat_map(|f| f.blocks.values())
        .flat_map(|b| b.records.iter().map(|(at, _)| at.0))
        .collect();
    assert_eq!(times, vec![30, 30, 40], "times within a channel never decrease");
}

#[test]
fn losses_are_announced_in_the_stream_they_happened_in() {
    let disk = Disk::new();
    let mut io = disk.io();
    let (mut w, ns) = loop_with_one_channel(&mut io, ChannelConfig::new(16 * 1024 * 1024));
    w.report_losses(ns, ChannelIdx(0), 3);
    assert_eq!(w.counters.dropped, 3);
    w.batch.push(text(ns, 5, "after"));
    w.apply_batch(&mut io);
    w.tick(&mut io);
    flush(&mut w, ns, &mut io);
    let texts = disk.texts(place_of(ns));
    assert!(texts.iter().any(|t| t.contains('3')), "the number is named: {texts:?}");
    assert_eq!(channel_of(&w, ns).lost, 0, "and it is announced once");
    w.tick(&mut io);
    flush(&mut w, ns, &mut io);
    assert_eq!(disk.texts(place_of(ns)), texts);
}

#[test]
fn every_record_is_on_the_medium_or_pending_or_counted_as_lost() {
    let disk = Disk::new();
    let mut io = disk.io();
    let (mut w, ns) = loop_with_one_channel(&mut io, dense_channel(64 << 20));
    let mut taken: u64 = 0;
    for round in 0..20u64 {
        disk.0.borrow_mut().refuse_space = (round % 3) as u32 * 2;
        for i in 0..7 {
            w.batch.push(blob(ns, round * 100 + i, 30 << 10));
            taken += 1;
        }
        w.apply_batch(&mut io);
        let pending = u64::from(channel_of(&w, ns).block.count);
        let landed = disk.records(place_of(ns)) as u64;
        let evicted = w.counters.segments_rotated;
        if evicted == 0 {
            assert_eq!(landed + pending + w.counters.dropped, taken, "round {round}");
        } else {
            assert!(landed + pending + w.counters.dropped <= taken, "round {round}");
        }
    }
    // A record of a namespace that is gone is lost, and counted.
    w.release(ns, &mut io);
    let before = w.counters.dropped;
    w.batch.push(blob(ns, 1, 8));
    w.apply_batch(&mut io);
    assert_eq!(w.counters.dropped, before + 1);
}

#[test]
fn the_wait_is_bounded_and_never_busy() {
    let disk = Disk::new();
    let mut io = disk.io();
    let config = ChannelConfig {
        flush_interval: Interval::from_millis(100),
        ..ChannelConfig::new(16 * 1024 * 1024)
    };
    let (mut w, ns) = loop_with_one_channel(&mut io, config);
    let now = io.now();
    assert_eq!(w.next_deadline(now), None);
    assert_eq!(w.timeout(now), IDLE_TIMEOUT);

    w.batch.push(sample(ns, 1, OwnedValue::U64(1)));
    w.apply_batch(&mut io);
    assert_eq!(w.timeout(now), 100_000_000, "the block is due in a tenth of a second");
    assert_eq!(w.timeout(now + 99_999_999), MIN_TIMEOUT);
    assert_eq!(w.timeout(now + 5 * SECOND), MIN_TIMEOUT, "an overdue block is no busy loop");

    disk.pass(SECOND / 10);
    w.tick(&mut io);
    assert_eq!(disk.records(place_of(ns)), 1, "the block was flushed when it was due");
}

#[test]
fn commands_are_answered_and_move_the_pulse() {
    let disk = Disk::new();
    let mut io = disk.io();
    let mut w = empty_loop(None);
    let mut pulse = Pulse::new();
    let (tx, rx) = crossbeam_channel::bounded::<Staged>(16);
    let (_ctx, crx) = crossbeam_channel::bounded::<Staged>(1);
    let (mut normal, mut critical) = (Inbox::new(rx), Inbox::new(crx));
    assert!(!w.publish_pulse(&mut pulse));
    let start = pulse.beat();

    let setup = NsSetup {
        name: "ns".to_owned(),
        protocol_version: ProtocolVersion(1),
        store_id: 0,
        boot: BootCounter(0),
        channels: vec![ChannelSpec {
            dir: "/ns/ch0".to_owned(),
            group: 0,
            quota_bytes: None,
            config: dense_channel(64 << 20),
        }],
    };
    let ns = match w.handle(Command::Register(setup), &mut normal, &mut critical, &mut io) {
        Reply::Registered(Ok(ns)) => ns,
        other => panic!("unexpected answer {other:?}"),
    };
    w.publish_pulse(&mut pulse);
    assert!(pulse.beat().roster > start.roster);

    tx.send(text(ns, 1, "one")).unwrap();
    let reply = w.handle(Command::Sync(Some(ns)), &mut normal, &mut critical, &mut io);
    assert!(matches!(reply, Reply::Synced(Ok(()))), "got {reply:?}");
    assert_eq!(disk.texts(place_of(ns)), vec!["one"], "what was accepted before is flushed");
    assert!(disk.0.borrow().files.values().all(|f| f.synced), "and synced");
    w.publish_pulse(&mut pulse);
    assert!(pulse.beat().data > start.data);
    assert!(pulse.beat().shape > start.shape, "a segment came up");

    tx.send(text(ns, 2, "two")).unwrap();
    let reply = w.handle(Command::Shutdown, &mut normal, &mut critical, &mut io);
    assert!(matches!(reply, Reply::Stopped));
    assert_eq!(disk.texts(place_of(ns)), vec!["one", "two"]);
    let file = inventory_files(&w, ns)[0];
    assert!(SegmentReader::open(&mut io, file, LAYOUT).unwrap().is_sealed());
    let reply = w.handle(Command::Release(ns), &mut normal, &mut critical, &mut io);
    assert!(matches!(reply, Reply::Released));
    assert!(w.namespaces[0].is_none());
}

#[test]
fn a_sync_that_could_not_keep_up_says_so() {
    assert!(WriterLoop::sync_outcome(Ok(()), true).is_ok());
    assert!(matches!(WriterLoop::sync_outcome(Ok(()), false), Err(Error::SyncIncomplete)));
    assert!(matches!(
        WriterLoop::sync_outcome(Err(Error::WriterDead), false),
        Err(Error::WriterDead)
    ));
}

#[test]
fn eviction_takes_the_oldest_of_what_it_may_take() {
    let disk = Disk::new();
    let mut io = disk.io();
    let (mut w, ns) = loop_with_one_channel(&mut io, dense_channel(64 << 20));
    for i in 0..40 {
        w.batch.push(blob(ns, i, 64 << 10));
    }
    w.apply_batch(&mut io);
    let files = inventory_files(&w, ns);
    let oldest = disk.len(files[0]);
    assert_eq!(w.evict_oldest_where(Pick::Group(1), &mut io), None, "nothing of that group");
    assert_eq!(w.evict_oldest_where(Pick::Group(0), &mut io), Some(oldest));
    assert!(!disk.has(files[0]) && disk.has(files[1]));
}

// -- migrations --------------------------------------------------------------

/// One transformation for every step.
struct OneStep(fn(MigrationInput<'_>) -> Result<Option<MigrationOutcome>, DecodeError>);

impl Steps for OneStep {
    fn migrate(
        &mut self,
        _from: u16,
        input: MigrationInput<'_>,
    ) -> Result<Option<MigrationOutcome>, DecodeError> {
        (self.0)(input)
    }
}

fn as_is(_: MigrationInput<'_>) -> Result<Option<MigrationOutcome>, DecodeError> {
    Ok(Some(MigrationOutcome::AsIs))
}

fn migration(
    events: &'static [EventId],
    metrics: &'static [MetricId],
    touches_all: bool,
) -> &'static [Migration] {
    Box::leak(Box::new([Migration { from: 1, touches_all, events, metrics, spans: &[] }]))
}

#[test]
fn a_rewrite_asks_for_the_room_it_needs_not_for_twice_it() {
    let disk = Disk::new();
    let mut io = disk.io();
    let count = 400;
    let head = SegmentHeader {
        protocol_version: ProtocolVersion(1),
        boot: BootCounter(0),
        base: Micros(0),
        store_id: 0,
    };
    let mut seg = SegmentWriter::create(&mut io, place(), head, 1 << 20, LAYOUT).unwrap();
    let mut footer = FooterBuilder::new();
    let payload = vec![0xABu8; 200];
    let (mut base, mut in_block) = (0u64, 0u32);
    for i in 0..count {
        let record = Record::Message { event: EventId(1), span: None, payload: &payload };
        let raw_len = io.push_record(place(), Micros(i), &record).unwrap();
        in_block += 1;
        if raw_len >= 4096 || i + 1 == count {
            let done = io.finish_block(place(), seg.next_seq(), Compression::Plain).unwrap();
            let h = BlockHeader {
                seq: seg.next_seq(),
                body_len: done.body_len,
                base: Micros(base),
                count: in_block,
            };
            footer.add_event(EventId(1));
            let at = seg.append_block(BlockInfo { header: h, len: done.len }, &mut io).unwrap();
            footer.add_block(at, &h, Micros(i));
            base = i + 1;
            in_block = 0;
        }
    }
    let path = seg.path();
    seg.seal(&footer.build(), &mut io).unwrap();
    let size = disk.len(path);

    disk.0.borrow_mut().free = Some(size + size / 8);
    let mut reader = SegmentReader::open(&mut io, path, LAYOUT).unwrap();
    let steps = migration(&[EventId(1)], &[], false).iter().collect();
    let mut migrator = Migrator::new(OneStep(as_is));
    let rewrite =
        rewrite_segment(&mut reader, ProtocolVersion(2), &steps, &mut migrator, &mut io)
            .expect("there is room for a copy of the segment");
    disk.0.borrow_mut().free = None;

    let MigrationCommit::Replace { size: out } = rewrite.commit else {
        panic!("the segment was rewritten, not deleted");
    };
    assert_eq!(rewrite.records_rewritten, 400);
    assert!(out <= size + size / 8, "the rewritten segment is {out} against {size}");
    let staged = SegmentFile { place: Place { staging: true, ..place() }, name: path.name };
    assert!(disk.has(staged), "the result awaits its commit");
}

#[test]
fn a_rewritten_segment_holds_what_is_left_block_by_block() {
    fn without_samples(r: MigrationInput<'_>) -> Result<Option<MigrationOutcome>, DecodeError> {
        match r.record {
            Record::Message { event: EventId(4), .. } => {
                Ok(Some(MigrationOutcome::Message { event: EventId(6), payload: vec![7] }))
            }
            Record::Sample { .. } => Ok(None),
            _ => Ok(Some(MigrationOutcome::AsIs)),
        }
    }

    let disk = Disk::new();
    let mut io = disk.io();
    let mut seg = segment(&mut io, 10, 1 << 20);
    let message = |event| Record::Message { event: EventId(event), span: None, payload: &[1] };
    let sampled = Record::Sample { metric: MetricId(2), value: Value::U64(5) };
    let blocks: [(Compression, Vec<(u64, Record<'_>)>); 3] = [
        (Compression::Plain, vec![(10, message(4)), (11, sampled), (12, message(3))]),
        (Compression::Plain, vec![(20, sampled), (21, sampled)]),
        (Compression::Lz4, vec![(30, sampled), (31, message(4))]),
    ];
    for (packed, records) in &blocks {
        for (at, record) in records {
            io.push_record(place(), Micros(*at), record).unwrap();
        }
        let done = io.finish_block(place(), seg.next_seq(), *packed).unwrap();
        let header = BlockHeader {
            seq: seg.next_seq(),
            body_len: done.body_len,
            base: Micros(records[0].0),
            count: records.len() as u32,
        };
        seg.append_block(BlockInfo { header, len: done.len }, &mut io).unwrap();
    }
    seg.sync(&mut io).unwrap();

    let mut reader = SegmentReader::open(&mut io, seg.path(), LAYOUT).unwrap();
    let steps = migration(&[EventId(4)], &[MetricId(2)], false).iter().collect();
    let mut migrator = Migrator::new(OneStep(without_samples));
    let rewrite =
        rewrite_segment(&mut reader, ProtocolVersion(2), &steps, &mut migrator, &mut io).unwrap();
    assert_eq!((rewrite.records_rewritten, rewrite.records_dropped), (3, 4));

    let staged = SegmentFile { place: Place { staging: true, ..place() }, name: seg.path().name };
    let s = disk.0.borrow();
    let f = &s.files[&staged];
    assert_eq!(f.header.protocol_version, ProtocolVersion(2));
    assert_eq!(f.header.base, Micros(10), "the name stays");
    let held: Vec<(u32, Compression, Vec<(u64, u16, Vec<u8>)>)> = f
        .blocks
        .values()
        .map(|b| {
            let records = b
                .records
                .iter()
                .map(|(at, r)| match r {
                    StoredRecord::Message { event, payload, .. } => (at.0, event.0, payload.clone()),
                    other => panic!("only messages are left: {other:?}"),
                })
                .collect();
            (b.header.seq, b.packed, records)
        })
        .collect();
    assert_eq!(
        held,
        vec![
            (0, Compression::Plain, vec![(10, 6, vec![7]), (12, 3, vec![1])]),
            (1, Compression::Lz4, vec![(31, 6, vec![7])]),
        ],
        "a block in is a block out, an emptied one drops out"
    );
    let (_, _, footer) = f.footer.as_ref().expect("the result is sealed");
    let places: Vec<u64> = footer.blocks.iter().map(|b| b.offset).collect();
    assert_eq!(places, f.blocks.keys().copied().collect::<Vec<_>>());
    let times: Vec<_> = footer.blocks.iter().map(|b| (b.base.0, b.last.0, b.count)).collect();
    assert_eq!(times, [(10, 12, 2), (31, 31, 1)]);
    assert_eq!(footer.events, [EventId(3), EventId(6)]);
    assert!(footer.metrics.is_empty());
    assert_eq!(rewrite.commit, MigrationCommit::Replace { size: f.len });
}

#[test]
fn a_rewrite_that_leaves_nothing_leaves_no_file() {
    fn drop_all(_: MigrationInput<'_>) -> Result<Option<MigrationOutcome>, DecodeError> {
        Ok(None)
    }

    let disk = Disk::new();
    let mut io = disk.io();
    let mut seg = segment(&mut io, 10, 1 << 20);
    append(&mut seg, &mut io, 10, 5);
    seg.sync(&mut io).unwrap();
    let mut reader = SegmentReader::open(&mut io, seg.path(), LAYOUT).unwrap();
    let steps = migration(&[EventId(1)], &[], false).iter().collect();
    let mut migrator = Migrator::new(OneStep(drop_all));
    let rewrite =
        rewrite_segment(&mut reader, ProtocolVersion(2), &steps, &mut migrator, &mut io).unwrap();
    assert_eq!(rewrite.commit, MigrationCommit::Remove);
    assert_eq!((rewrite.records_rewritten, rewrite.records_dropped), (0, 5));
    let staged = SegmentFile { place: Place { staging: true, ..place() }, name: seg.path().name };
    assert!(!disk.has(staged), "the empty copy is deleted");
    assert!(disk.has(seg.path()), "the original awaits its commit");
}

// -- namespaces --------------------------------------------------------------

static LANGS: &[Language] = &[Language("en"), Language("ru")];
static EVENTS: &[EventDesc] = &[
    EventDesc {
        id: EventId(1),
        name: "PowerSet",
        level: Level::Info,
        class: StorageClass::Default,
        tags: &["rf"],
        templates: &["power {dbm}", "мощность {dbm}"],
        fields: &[],
    },
    EventDesc {
        id: EventId(2),
        name: "Alarm",
        level: Level::Error,
        class: StorageClass::Critical,
        tags: &[],
        templates: &["alarm", "авария"],
        fields: &[],
    },
];
static LINK_STATES: &[StateDesc] = &[
    StateDesc { code: 0, name: "Los", severity: Severity::Alarm },
    StateDesc { code: 1, name: "Sync", severity: Severity::Warn },
    StateDesc { code: 2, name: "Lock", severity: Severity::Normal },
];
static SPANS: &[SpanDesc] =
    &[SpanDesc { id: SpanKindId(1), name: "Calibration", class: StorageClass::Default }];

fn at_most(v: f64) -> Range {
    Range { min: None, max: Some(Scalar::from_bits(v.to_bits())) }
}

fn schema() -> Schema {
    let metrics = vec![
        MetricDesc {
            id: MetricId(1),
            name: "temp",
            value_type: ValueType::F32,
            class: StorageClass::Default,
            unit: "°C",
            tags: &["thermal"],
            kind: MetricKind::Gauge,
            states: &[],
            thresholds: Thresholds { warn: at_most(70.0), alarm: at_most(85.0) },
        },
        MetricDesc {
            id: MetricId(2),
            name: "link",
            value_type: ValueType::U64,
            class: StorageClass::Default,
            unit: "",
            tags: &["rf"],
            kind: MetricKind::State,
            states: LINK_STATES,
            thresholds: Thresholds::none(),
        },
    ];
    Schema {
        name: "radio",
        version: ProtocolVersion(1),
        languages: LANGS,
        events: EVENTS,
        metrics: Box::leak(metrics.into_boxed_slice()),
        spans: SPANS,
        migrations: &[],
    }
}

/// The channel state, as a schema's generated code declares it.
#[derive(Debug, Clone, Copy)]
enum LinkState {
    Los,
    Sync,
    Lock,
}

fn temp_reading(v: f32) -> Reading<'static> {
    Reading {
        value: Value::F32(v.to_bits()),
        number: Some(Scalar::from_bits(f64::from(v).to_bits())),
        warn_hit: false,
        alarm_hit: false,
    }
}

fn link_reading(s: LinkState) -> Reading<'static> {
    Reading {
        value: Value::U64(s as u64),
        number: Some(Scalar::from_bits((s as u64 as f64).to_bits())),
        warn_hit: false,
        alarm_hit: false,
    }
}

/// A store on a medium in memory, without a thread of its own.
struct Bench {
    disk: Disk,
    io: Io<Disk>,
    core_: StoreCore,
    w: WriterLoop,
    tx: (crossbeam_channel::Sender<Staged>, crossbeam_channel::Sender<Staged>),
    normal: Inbox,
    critical: Inbox,
    spans: u32,
    time: u64,
}

struct Opened {
    ns: Namespace,
    desk: Desk,
}

type Metas = Rc<RefCell<HashMap<String, Vec<u8>>>>;

fn bench(disk: &Disk, boot: u32) -> Bench {
    let config = StoreConfig::new("/data".to_owned()).with_budget_per_class(16 * 1024 * 1024);
    let root = || "/data".to_owned();
    let groups = (0..3)
        .map(|_| GroupBudget { budget_bytes: 16 * 1024 * 1024, root_key: 0 })
        .collect();
    let sizes = QueueSizes::default();
    let (tx, rx) = crossbeam_channel::bounded::<Staged>(sizes.normal);
    let (ctx, crx) = crossbeam_channel::bounded::<Staged>(sizes.critical);
    Bench {
        disk: disk.clone(),
        io: disk.io(),
        core_: StoreCore::new(
            config,
            StoreMeta { container_version: 1, store_id: 42 },
            PerClass { critical: root(), ordinary: root(), telemetry: root() },
            BootCounter(boot),
        ),
        w: WriterLoop::new(groups, None, LAYOUT),
        tx: (tx, ctx),
        normal: Inbox::new(rx),
        critical: Inbox::new(crx),
        spans: 1,
        time: 1_000,
    }
}

impl Bench {
    fn open(&mut self, name: &str, schema: Schema, metas: &Metas) -> Result<Opened, Error> {
        self.core_.begin_namespace(name, &schema).map_err(|fault| match fault {
            OpeningFault::Busy => Error::NamespaceBusy(name.to_owned()),
            OpeningFault::BadName(reason) => {
                Error::BadNamespace { name: name.to_owned(), reason }
            }
            OpeningFault::BadSchema(e) => {
                Error::BadSchema { name: schema.name.to_owned(), reason: format!("{e:?}") }
            }
        })?;
        let stored = metas.borrow().get(name).cloned();
        let opening = self.core_.open_meta(name, &schema, stored.as_ref(), "/data/ns-meta")?;
        if let Some(bytes) = &opening.write {
            metas.borrow_mut().insert(name.to_owned(), bytes.clone());
        }
        let setup = self.core_.plan_namespace(name, &schema, &NsQuota::new())?;
        let channels = setup.channels.len();
        let id = self.w.register(setup, &mut self.io)?;
        self.core_.confirm(name, id);
        let writer = Writer::new(self.tx.0.clone(), self.tx.1.clone());
        Ok(Opened {
            ns: Namespace::new(id, name.to_owned(), schema, opening.meta),
            desk: Desk::new(writer, channels),
        })
    }

    fn now(&mut self) -> Micros {
        self.time += 1;
        Micros(self.time)
    }

    fn log(&mut self, o: &mut Opened, event: u16, payload: &[u8]) {
        let at = self.now();
        if o.ns.log_raw(EventId(event), payload, None, at, &mut o.desk) {
            let at = self.now();
            o.ns.log_text(
                Level::Error,
                "dduroc".into(),
                "announced".into(),
                None,
                at,
                &mut o.desk,
            );
        }
    }

    fn sync(&mut self, o: &mut Opened) {
        for i in 0..o.desk.drops.channels() {
            let lost = o.desk.drops.take(ChannelIdx(i as u16));
            self.w.report_losses(o.ns.id, ChannelIdx(i as u16), lost);
        }
        let command = Command::Sync(Some(o.ns.id));
        let reply = self.w.handle(command, &mut self.normal, &mut self.critical, &mut self.io);
        assert!(matches!(reply, Reply::Synced(Ok(()))), "got {reply:?}");
    }

    fn shutdown(&mut self) {
        let reply = self.w.handle(
            Command::Shutdown,
            &mut self.normal,
            &mut self.critical,
            &mut self.io,
        );
        assert!(matches!(reply, Reply::Stopped));
    }

    fn release(&mut self, o: Opened) {
        self.core_.abandon(&o.ns.name);
        let reply = self.w.handle(
            Command::Release(o.ns.id),
            &mut self.normal,
            &mut self.critical,
            &mut self.io,
        );
        assert!(matches!(reply, Reply::Released));
    }

    fn channel(&self, o: &Opened, class: StorageClass) -> Place {
        Place { ns: o.ns.id, channel: o.ns.channel_of(class).unwrap(), staging: false }
    }

    fn files(&self, place: Place) -> Vec<SegmentFile> {
        let s = self.disk.0.borrow();
        let mut files: Vec<SegmentFile> =
            s.files.keys().filter(|f| f.place == place).copied().collect();
        files.sort_by_key(|f| (f.name.boot.0, f.name.base.0));
        files
    }
}

/// Commits through the writer's loop.
struct ByLoop<'a>(&'a mut WriterLoop, Io<Disk>);

impl Committer for ByLoop<'_> {
    fn commit(
        &mut self,
        ns: NsId,
        channel: ChannelIdx,
        name: SegmentName,
        commit: MigrationCommit,
    ) -> Result<bool, Error> {
        self.0.commit_migration(ns, channel, name, commit, &mut self.1)
    }
}

fn migrate(
    b: &mut Bench,
    o: &mut Opened,
    metas: &Metas,
    step: fn(MigrationInput<'_>) -> Result<Option<MigrationOutcome>, DecodeError>,
) -> Result<MigrationReport, Error> {
    if o.ns.begin_migration()?.is_none() {
        return Ok(MigrationReport::default());
    }
    let mut migrator = Migrator::new(OneStep(step));
    let io = b.disk.io();
    let report = run_namespace(
        o.ns.id,
        o.ns.classes.len() as u16,
        &o.ns.schema,
        42,
        LAYOUT,
        &mut migrator,
        &mut Commits::new(ByLoop(&mut b.w, io)),
        &mut b.io,
    );
    if report.is_ok() {
        let bytes = o.ns.stamp_bytes().unwrap();
        metas.borrow_mut().insert(o.ns.name.clone(), bytes);
    }
    o.ns.end_migration(report.is_ok());
    report
}

#[test]
fn writes_land_on_disk() {
    let (disk, metas) = (Disk::new(), Metas::default());
    let mut b = bench(&disk, 1);
    let mut o = b.open("orc-radio-0", schema(), &metas).unwrap();
    for i in 0..100 {
        b.log(&mut o, 1, &[i as u8; 4]);
    }
    b.sync(&mut o);

    let stats = b.w.counters.snapshot();
    assert_eq!(stats.records_written, 100);
    assert!(stats.blocks_written >= 1);
    assert!(stats.is_clean(), "there must be no losses: {stats:?}");
    let place = b.channel(&o, StorageClass::Default);
    assert_eq!(b.files(place).len(), 1, "exactly one segment was created");
}

#[test]
fn critical_events_are_synced_immediately() {
    let (disk, metas) = (Disk::new(), Metas::default());
    let mut b = bench(&disk, 1);
    let mut o = b.open("orc-radio-0", schema(), &metas).unwrap();
    b.log(&mut o, 2, &[1, 2, 3]);
    b.w.take_turn(&mut b.normal, &mut b.critical, &mut b.io);
    assert!(b.w.counters.snapshot().syncs >= 1, "a critical event must be synced");
    let place = b.channel(&o, StorageClass::Critical);
    assert_eq!(b.files(place).len(), 1, "the critical channel is created separately");
    assert!(b.files(b.channel(&o, StorageClass::Default)).is_empty());
}

#[test]
fn overload_loses_only_what_it_reports() {
    let (disk, metas) = (Disk::new(), Metas::default());
    let mut b = bench(&disk, 1);
    let mut o = b.open("orc-radio-0", schema(), &metas).unwrap();
    let n = 50_000u64;
    let (mut accepted, mut refused) = (0u64, 0u64);
    for i in 0..n {
        let at = b.now();
        match o.ns.try_log_raw(EventId(1), &[i as u8; 8], None, at, &mut o.desk) {
            Ok(()) => accepted += 1,
            Err(_) => refused += 1,
        }
    }
    b.sync(&mut o);

    let stats = b.w.counters.snapshot();
    assert_eq!(accepted + refused, n);
    assert!(accepted > 0, "at least something must get through");
    assert!(stats.records_written >= accepted, "a silent loss");
    assert_eq!(stats.dropped, refused, "exactly the losses that happened are accounted for");
    assert_eq!(o.desk.counters.dropped, refused);
    assert_eq!(stats.io_errors, 0, "there must be no I/O errors");
}

#[test]
fn critical_burst_is_one_group_commit() {
    let (disk, metas) = (Disk::new(), Metas::default());
    let mut b = bench(&disk, 1);
    let mut o = b.open("orc-radio-0", schema(), &metas).unwrap();
    let burst = 500;
    for i in 0..burst {
        let at = b.now();
        o.ns.try_log_raw(EventId(2), &[i as u8], None, at, &mut o.desk).unwrap();
    }
    b.sync(&mut o);

    let stats = b.w.counters.snapshot();
    assert!(stats.records_written >= burst as u64);
    assert!(stats.syncs < burst as u64 / 4, "that is not a group commit: {}", stats.syncs);
    assert!(stats.blocks_written < burst as u64 / 4, "a header per record");
}

#[test]
fn namespace_cannot_be_opened_twice() {
    let (disk, metas) = (Disk::new(), Metas::default());
    let mut b = bench(&disk, 1);
    let a = b.open("orc-radio-0", schema(), &metas).unwrap();
    let err = b.open("orc-radio-0", schema(), &metas).err().unwrap();
    assert!(matches!(err, Error::NamespaceBusy(_)), "got {err:?}");
    b.release(a);
    assert!(b.open("orc-radio-0", schema(), &metas).is_ok(), "the name is free again");
}

#[test]
fn foreign_schema_refused() {
    let (disk, metas) = (Disk::new(), Metas::default());
    let mut b = bench(&disk, 1);
    let o = b.open("orc-radio-0", schema(), &metas).unwrap();
    b.release(o);
    b.shutdown();

    let mut b2 = bench(&disk, 2);
    let other = Schema { name: "another-schema", ..schema() };
    let err = b2.open("orc-radio-0", other, &metas).err().unwrap();
    assert!(matches!(err, Error::SchemaMismatch { .. }), "got {err:?}");
}

#[test]
fn protocol_from_future_refused() {
    let (disk, metas) = (Disk::new(), Metas::default());
    let meta = NsMeta { schema_name: "radio".to_owned(), protocol_version: 99 };
    metas.borrow_mut().insert("orc-radio-0".to_owned(), meta.encode().unwrap());
    let mut b = bench(&disk, 1);
    let err = b.open("orc-radio-0", schema(), &metas).err().unwrap();
    assert!(matches!(err, Error::ProtocolFromFuture { stored: 99, .. }), "got {err:?}");
}

#[test]
fn pending_migration_is_reported_and_meta_is_not_stamped() {
    let (disk, metas) = (Disk::new(), Metas::default());
    {
        let mut b = bench(&disk, 1);
        let mut o = b.open("orc-radio-0", schema(), &metas).unwrap();
        assert_eq!(o.ns.pending_migration(), None, "the versions match");
        b.log(&mut o, 1, &[1]);
        b.sync(&mut o);
        b.shutdown();
    }

    let v2 = Schema {
        version: ProtocolVersion(2),
        migrations: migration(&[], &[], true),
        ..schema()
    };
    let mut b = bench(&disk, 2);
    let mut o = b.open("orc-radio-0", v2, &metas).unwrap();
    assert_eq!(o.ns.pending_migration(), Some((1, 2)), "it must be named");
    assert_eq!(o.ns.meta().protocol_version, 1);
    b.log(&mut o, 1, &[2]);
    b.sync(&mut o);
    b.shutdown();

    let raw = metas.borrow()["orc-radio-0"].clone();
    let again = NsMeta::open(Some(&raw), "", "orc-radio-0", &schema()).unwrap();
    assert_eq!(again.meta.protocol_version, 1, "on disk it is still the first version");

    let place = b.channel(&o, StorageClass::Default);
    let mut versions: Vec<u16> = b
        .files(place)
        .into_iter()
        .map(|f| SegmentReader::open(&mut b.io, f, LAYOUT).unwrap().header().protocol_version.0)
        .collect();
    versions.sort_unstable();
    assert_eq!(versions, vec![1, 2], "the old one kept its version, the new one got its own");
}

#[test]
fn migrate_rewrites_history_and_stamps_the_meta() {
    fn step(r: MigrationInput<'_>) -> Result<Option<MigrationOutcome>, DecodeError> {
        match r.record {
            Record::Message { event: EventId(1), .. } => Ok(Some(MigrationOutcome::Message {
                event: EventId(1),
                payload: vec![0xAA, 0xBB],
            })),
            Record::Sample { metric: MetricId(1), .. } => Ok(None),
            _ => Ok(Some(MigrationOutcome::AsIs)),
        }
    }

    let (disk, metas) = (Disk::new(), Metas::default());
    {
        let mut b = bench(&disk, 1);
        let mut o = b.open("orc-radio-0", schema(), &metas).unwrap();
        b.log(&mut o, 1, &[1, 2, 3]);
        let temp: Series<Single> = o.ns.series(Metric::new(MetricId(1))).unwrap();
        let at = b.now();
        temp.sample(Single(36.6f32.to_bits()), &mut o.ns, at, &mut o.desk);
        b.log(&mut o, 1, &[4, 5]);
        b.sync(&mut o);
        b.shutdown();
    }

    let v2 = Schema {
        version: ProtocolVersion(2),
        migrations: migration(&[EventId(1)], &[MetricId(1)], false),
        ..schema()
    };
    let mut b = bench(&disk, 2);
    let mut o = b.open("orc-radio-0", v2, &metas).unwrap();
    assert_eq!(o.ns.pending_migration(), Some((1, 2)));
    b.log(&mut o, 1, &[9]);
    b.sync(&mut o);

    let report = migrate(&mut b, &mut o, &metas, step).expect("the run goes through");
    assert_eq!(report.rewritten, 1, "{report:?}");
    assert_eq!(report.already_current, 1, "the active segment is untouched");
    assert_eq!(report.records_rewritten, 2, "two PowerSet records survived the step");
    assert_eq!(report.records_dropped, 1, "the temp sample was deleted");
    assert_eq!(report.skipped_untouched + report.emptied, 0, "{report:?}");

    assert_eq!(o.ns.pending_migration(), None, "there is no debt left");
    assert_eq!(o.ns.meta().protocol_version, 2, "the metadata is stamped in memory");
    let raw = metas.borrow()["orc-radio-0"].clone();
    let again = NsMeta::open(Some(&raw), "", "orc-radio-0", &o.ns.schema).unwrap();
    assert_eq!(again.meta.protocol_version, 2, "and on disk");

    let place = b.channel(&o, StorageClass::Default);
    let mut rewritten_payloads = Vec::new();
    let mut samples = 0;
    for file in b.files(place) {
        let mut reader = SegmentReader::open(&mut b.io, file, LAYOUT).unwrap();
        assert_eq!(reader.header().protocol_version.0, 2, "no earlier versions are left");
        for offset in reader.scan_block_offsets(&mut b.io).offsets {
            let block = reader.read_block_at(offset, &mut b.io).unwrap().unwrap();
            let contents = b.io.read_records(file, offset, block.header).unwrap();
            for (_, record) in contents.records {
                match record {
                    StoredRecord::Message { payload, .. } => rewritten_payloads.push(payload),
                    StoredRecord::Sample { .. } => samples += 1,
                    _ => {}
                }
            }
        }
    }
    rewritten_payloads.sort();
    assert_eq!(
        rewritten_payloads,
        vec![vec![9], vec![0xAA, 0xBB], vec![0xAA, 0xBB]],
        "the old payloads were rewritten by the step, the new one is as it was"
    );
    assert_eq!(samples, 0, "samples deleted by a step do not come back");

    assert_eq!(migrate(&mut b, &mut o, &metas, step).unwrap(), MigrationReport::default());
}

#[test]
fn an_untouched_segment_is_skipped_and_keeps_its_version() {
    fn nope(_: MigrationInput<'_>) -> Result<Option<MigrationOutcome>, DecodeError> {
        Ok(Some(MigrationOutcome::Message { event: EventId(2), payload: vec![0xEE] }))
    }
    let (disk, metas) = (Disk::new(), Metas::default());
    {
        let mut b = bench(&disk, 1);
        let mut o = b.open("orc-radio-0", schema(), &metas).unwrap();
        b.log(&mut o, 1, &[7]);
        b.sync(&mut o);
        b.shutdown();
    }

    let v2 = Schema {
        version: ProtocolVersion(2),
        migrations: migration(&[EventId(2)], &[], false),
        ..schema()
    };
    let mut b = bench(&disk, 2);
    let mut o = b.open("orc-radio-0", v2, &metas).unwrap();
    let report = migrate(&mut b, &mut o, &metas, nope).unwrap();
    assert_eq!(report.skipped_untouched, 1, "{report:?}");
    assert_eq!(report.rewritten, 0, "the flash is untouched");
    assert_eq!(o.ns.pending_migration(), None, "the metadata is stamped");

    let old = b.files(b.channel(&o, StorageClass::Default))[0];
    let reader = SegmentReader::open(&mut b.io, old, LAYOUT).unwrap();
    assert_eq!(reader.header().protocol_version.0, 1, "and that is legitimate");
}

#[test]
fn bad_namespace_names_refused() {
    let (disk, metas) = (Disk::new(), Metas::default());
    let mut b = bench(&disk, 1);
    for bad in ["../escape", "a/b", "", ".hidden"] {
        assert!(b.open(bad, schema(), &metas).is_err(), "{bad:?} must be rejected");
    }
}

#[test]
fn telemetry_series_and_spans() {
    let (disk, metas) = (Disk::new(), Metas::default());
    let mut b = bench(&disk, 1);
    let mut o = b.open("orc-radio-0", schema(), &metas).unwrap();

    let temp: Series<Single> = o.ns.series(Metric::new(MetricId(1))).unwrap();
    for i in 0..50 {
        let at = b.now();
        let announce =
            temp.sample(Single((20.0 + i as f32).to_bits()), &mut o.ns, at, &mut o.desk);
        assert!(!announce);
    }
    let dyn_temp = o.ns.series_untyped(MetricId(1)).unwrap();
    let at = b.now();
    let e = dyn_temp
        .try_sample_raw(OwnedValue::U64(1), at, &mut o.desk)
        .expect_err("the value type must match what was declared");
    assert!(e.breaks_contract(), "this is a defect in the call, not a loss: {e:?}");

    let at = b.now();
    let (cal, announce) = o.ns.span(SpanKindId(1), &mut b.spans, at, &mut o.desk);
    assert!(!announce);
    let at = b.now();
    assert!(!cal.log_raw(&mut o.ns, EventId(1), &[7], at, &mut o.desk));
    let at = b.now();
    let (child, _) = cal.child(&mut o.ns, SpanKindId(1), &mut b.spans, at, &mut o.desk);
    assert_ne!(child.id(), cal.id());
    let at = b.now();
    child.abandon(at, &mut o.desk).unwrap();
    let at = b.now();
    cal.close(at, &mut o.desk).unwrap();

    b.sync(&mut o);
    let stats = b.w.counters.snapshot();
    assert!(stats.records_written >= 55, "got {stats:?}");
    assert!(stats.is_clean());
    assert!(o.desk.counters.snapshot().is_clean());
}

#[test]
fn sync_waits_for_everything_already_enqueued() {
    let (disk, metas) = (Disk::new(), Metas::default());
    let mut b = bench(&disk, 1);
    let mut o = b.open("orc-radio-0", schema(), &metas).unwrap();
    let n = 8_000;
    for i in 0..n {
        let at = b.now();
        o.ns.try_log_raw(EventId(1), &[i as u8; 4], None, at, &mut o.desk).unwrap();
    }
    b.sync(&mut o);
    assert_eq!(b.w.counters.snapshot().records_written, n);
}

#[test]
fn shutdown_persists_everything_accepted() {
    let (disk, metas) = (Disk::new(), Metas::default());
    let mut b = bench(&disk, 1);
    let o = &mut b.open("orc-radio-0", schema(), &metas).unwrap();
    let n = 8_000;
    for i in 0..n {
        let at = b.now();
        o.ns.try_log_raw(EventId(1), &[i as u8; 4], None, at, &mut o.desk).unwrap();
    }
    b.shutdown();
    assert_eq!(b.w.counters.snapshot().records_written, n);
    assert_eq!(disk.records(b.channel(o, StorageClass::Default)), n as usize);
}

#[test]
fn segment_name_matches_time_of_its_first_record() {
    let (disk, metas) = (Disk::new(), Metas::default());
    let mut b = bench(&disk, 3);
    let mut o = b.open("orc-radio-0", schema(), &metas).unwrap();
    let before = b.time;
    b.log(&mut o, 1, &[1]);
    b.sync(&mut o);
    let after = b.time;
    let parsed = b.files(b.channel(&o, StorageClass::Default))[0].name;
    assert_eq!(parsed.boot, BootCounter(3));
    assert!(parsed.base.0 >= before && parsed.base.0 <= after);
    assert_ne!(parsed.base.0, 0, "a zero base is the sign of the old bug");
}

#[test]
fn failed_namespace_open_releases_the_name() {
    let (disk, metas) = (Disk::new(), Metas::default());
    let mut b = bench(&disk, 1);
    let broken = Schema { version: ProtocolVersion(0), ..schema() };
    assert!(b.open("orc-radio-0", broken, &metas).is_err());
    assert!(b.open("orc-radio-0", schema(), &metas).is_ok(), "the name must be freed");
}

#[test]
fn enum_states_are_written_as_plain_integers() {
    let (disk, metas) = (Disk::new(), Metas::default());
    let mut b = bench(&disk, 1);
    let mut o = b.open("orc-radio-0", schema(), &metas).unwrap();
    let link: Series<u64> = o.ns.series(Metric::new(MetricId(2))).unwrap();
    assert_eq!(link.kind(), MetricKind::State);
    for st in [LinkState::Los, LinkState::Sync, LinkState::Lock] {
        let at = b.now();
        assert!(!link.sample(st as u64, &mut o.ns, at, &mut o.desk));
    }
    b.sync(&mut o);

    let stats = b.w.counters.snapshot();
    assert_eq!(stats.records_written, 3, "not one bookkeeping record");
    assert!(stats.is_clean(), "{stats:?}");
    assert!(stats.bytes_written < 32 + 3 * 8, "three states took {}", stats.bytes_written);
}

#[test]
fn sealed_segment_lists_its_metrics_in_the_footer() {
    let (disk, metas) = (Disk::new(), Metas::default());
    let mut b = bench(&disk, 1);
    let mut o = b.open("orc-radio-0", schema(), &metas).unwrap();
    let temp: Series<Single> = o.ns.series(Metric::new(MetricId(1))).unwrap();
    let link: Series<u64> = o.ns.series(Metric::new(MetricId(2))).unwrap();
    let at = b.now();
    temp.sample(Single(36.6f32.to_bits()), &mut o.ns, at, &mut o.desk);
    let at = b.now();
    link.sample(LinkState::Lock as u64, &mut o.ns, at, &mut o.desk);
    b.log(&mut o, 1, &[1]);
    b.shutdown();

    let path = b.files(b.channel(&o, StorageClass::Default))[0];
    let reader = SegmentReader::open(&mut b.io, path, LAYOUT).unwrap();
    assert!(reader.is_sealed(), "shutdown seals the segment");
    let footer = reader.footer().expect("the footer reads");
    assert_eq!(footer.metrics, vec![MetricId(1), MetricId(2)], "both must be listed");
    assert_eq!(footer.events, vec![EventId(1)]);
    assert!(footer.touches(&[], &[MetricId(2)]), "a migration must see it");
    assert!(!footer.touches(&[], &[MetricId(9)]));
}

#[test]
fn state_of_a_foreign_metric_is_refused() {
    let (disk, metas) = (Disk::new(), Metas::default());
    let mut b = bench(&disk, 1);
    let mut o = b.open("orc-radio-0", schema(), &metas).unwrap();
    let temp = o.ns.series_untyped(MetricId(1)).unwrap();
    let err = temp
        .try_sample_raw(OwnedValue::U64(LinkState::Lock as u64), Micros(1), &mut o.desk)
        .unwrap_err();
    assert!(matches!(err, Error::ValueTypeMismatch { .. }), "got {err:?}");
    assert!(err.breaks_contract());
    // The quiet path counts it, and has it announced once.
    assert!(temp.sample_raw(OwnedValue::U64(2), &mut o.ns, Micros(2), &mut o.desk));
    assert!(!temp.sample_raw(OwnedValue::U64(2), &mut o.ns, Micros(3), &mut o.desk));
    assert_eq!(o.desk.counters.rejected, 2);
}

#[test]
fn limits_default_from_schema_and_override_at_runtime() {
    let (disk, metas) = (Disk::new(), Metas::default());
    let mut b = bench(&disk, 1);
    let mut o = b.open("orc-radio-0", schema(), &metas).unwrap();
    let (temp, link) = (MetricId(1), MetricId(2));
    let sev = |ns: &Namespace, v: f32| ns.severity_of_raw(temp, &temp_reading(v), None);
    assert_eq!(sev(&o.ns, 36.6), Severity::Normal);
    assert_eq!(sev(&o.ns, 75.0), Severity::Warn);
    assert_eq!(sev(&o.ns, 90.0), Severity::Alarm);

    let narrow = Thresholds { warn: at_most(40.0), alarm: at_most(50.0) };
    o.ns.set_limits(temp, MetricLimits::numeric(narrow)).unwrap();
    assert_eq!(sev(&o.ns, 45.0), Severity::Warn, "the schema would have said Normal");
    let eff = o.ns.limits(temp).unwrap();
    assert!(eff.overridden);
    assert_eq!(eff.unit, "°C");
    assert_eq!(eff.kind, MetricKind::Gauge);

    let states = o.ns.limits(link).unwrap();
    assert_eq!(states.kind, MetricKind::State);
    assert_eq!(states.states.len(), 3);
    assert_eq!(states.states[0].name, "Los");
    assert_eq!(states.states[0].severity, Severity::Alarm);
    let of = |s| o.ns.severity_of_raw(link, &link_reading(s), None);
    assert_eq!(of(LinkState::Los), Severity::Alarm);
    assert_eq!(of(LinkState::Sync), Severity::Warn);
    assert_eq!(of(LinkState::Lock), Severity::Normal);

    b.sync(&mut o);
    assert_eq!(b.w.counters.snapshot().records_written, 0, "limits are a setting, not data");
    o.ns.clear_limits(temp).unwrap();
    assert_eq!(sev(&o.ns, 45.0), Severity::Normal);
    assert!(!o.ns.limits(temp).unwrap().overridden);

    let e = o.ns.clear_limits(MetricId(99)).unwrap_err();
    assert!(e.breaks_contract(), "{e:?}");
}

#[test]
fn bounds_of_a_metric_known_at_run_time() {
    let (disk, metas) = (Disk::new(), Metas::default());
    let mut b = bench(&disk, 1);
    let mut o = b.open("orc-radio-0", schema(), &metas).unwrap();
    assert_eq!(o.ns.id(), NsId(0));
    o.ns.set_thresholds_raw(MetricId(1), at_most(40.0), at_most(50.0)).unwrap();
    let sev = |v: f32| o.ns.severity_of_raw(MetricId(1), &temp_reading(v), None);
    assert_eq!(sev(45.0), Severity::Warn);
    assert_eq!(sev(60.0), Severity::Alarm);
    let e = o.ns.set_thresholds_raw(MetricId(99), at_most(40.0), at_most(50.0)).unwrap_err();
    assert!(matches!(e, Error::UnknownMetric { metric_id: 99 }), "{e:?}");
}

#[test]
fn numeric_bounds_on_a_state_metric_are_refused_at_runtime_too() {
    let (disk, metas) = (Disk::new(), Metas::default());
    let mut b = bench(&disk, 1);
    let mut o = b.open("orc-radio-0", schema(), &metas).unwrap();
    let bounds = Thresholds { warn: at_most(1.0), alarm: at_most(2.0) };
    let e = o.ns.set_limits(MetricId(2), MetricLimits::numeric(bounds)).unwrap_err();
    assert!(matches!(e, Error::BadLimits { .. }), "{e:?}");

    let bounds = Thresholds { warn: at_most(40.0), alarm: at_most(50.0) };
    o.ns.set_limits(MetricId(1), MetricLimits::numeric(bounds)).unwrap();
    let s = o.ns.severity_of_raw(MetricId(1), &temp_reading(45.0), None);
    assert_eq!(s, Severity::Warn);
}

#[test]
fn limits_are_per_namespace_not_per_process() {
    let (disk, metas) = (Disk::new(), Metas::default());
    let mut s = bench(&disk, 1);
    let mut a = s.open("orc-radio-0", schema(), &metas).unwrap();
    let b = s.open("orc-radio-1", schema(), &metas).unwrap();
    let bounds = Thresholds { warn: at_most(10.0), alarm: Range { min: None, max: None } };
    a.ns.set_limits(MetricId(1), MetricLimits::numeric(bounds)).unwrap();

    let sev = |o: &Opened| o.ns.severity_of_raw(MetricId(1), &temp_reading(20.0), None);
    assert_eq!(sev(&a), Severity::Warn);
    assert_eq!(sev(&b), Severity::Normal, "the neighbour kept its limits");
}

#[test]
fn a_closure_beats_overrides_and_schema() {
    let (disk, metas) = (Disk::new(), Metas::default());
    let mut s = bench(&disk, 1);
    let mut o = s.open("orc-radio-0", schema(), &metas).unwrap();
    let sev = |ns: &Namespace| {
        ns.severity_of_raw(MetricId(1), &temp_reading(20.0), Some(Severity::Alarm))
    };
    assert_eq!(sev(&o.ns), Severity::Normal, "nobody asked a closure");
    o.ns.set_severity_fn(MetricId(1)).unwrap();
    assert_eq!(sev(&o.ns), Severity::Alarm);
    o.ns.clear_severity_fn(MetricId(1)).unwrap();
    assert_eq!(sev(&o.ns), Severity::Normal);
}

#[test]
fn unknown_ids_are_counted_and_announced_once() {
    let (disk, metas) = (Disk::new(), Metas::default());
    let mut b = bench(&disk, 1);
    let mut o = b.open("orc-radio-0", schema(), &metas).unwrap();

    let e = o.ns.try_log_raw(EventId(99), &[], None, Micros(1), &mut o.desk).unwrap_err();
    assert!(e.breaks_contract(), "{e:?}");
    assert!(o.ns.series_untyped(MetricId(99)).is_err());

    for _ in 0..100 {
        b.log(&mut o, 99, &[]);
    }
    b.sync(&mut o);

    let stats = o.desk.counters.snapshot();
    assert_eq!(stats.rejected, 100, "every refusal is accounted for");
    assert_eq!(stats.dropped, 0, "this is not a loss caused by the disk");
    assert!(!stats.is_clean(), "the defect must be visible");
    assert_eq!(
        b.w.counters.snapshot().records_written,
        1,
        "one announcement for all hundred calls"
    );

    let (span, announce) = o.ns.span(SpanKindId(99), &mut b.spans, Micros(9), &mut o.desk);
    assert!(span.id().0 > 0);
    assert!(announce, "a span kind is another kind of defect");
}

#[test]
fn text_at_an_error_level_goes_to_the_critical_channel() {
    let (disk, metas) = (Disk::new(), Metas::default());
    let mut b = bench(&disk, 1);
    let mut o = b.open("orc-radio-0", schema(), &metas).unwrap();
    for (level, what) in [(Level::Warn, "quiet"), (Level::Error, "loud")] {
        let at = b.now();
        o.ns.try_log_text(level, "app".into(), what.into(), None, at, &mut o.desk).unwrap();
    }
    b.sync(&mut o);
    assert_eq!(disk.texts(b.channel(&o, StorageClass::Default)), vec!["quiet"]);
    assert_eq!(disk.texts(b.channel(&o, StorageClass::Critical)), vec!["loud"]);
}

#[test]
fn a_second_migration_is_refused_while_one_runs() {
    let (disk, metas) = (Disk::new(), Metas::default());
    let mut b = bench(&disk, 1);
    let v2 =
        Schema { version: ProtocolVersion(2), migrations: migration(&[], &[], true), ..schema() };
    let meta = NsMeta { schema_name: "radio".to_owned(), protocol_version: 1 };
    metas.borrow_mut().insert("orc-radio-0".to_owned(), meta.encode().unwrap());
    let mut o = b.open("orc-radio-0", v2, &metas).unwrap();
    assert_eq!(o.ns.begin_migration().unwrap(), Some(2));
    assert!(matches!(o.ns.begin_migration(), Err(Error::MigrationBusy(_))));
    o.ns.end_migration(false);
    assert_eq!(o.ns.pending_migration(), Some((1, 2)), "a failed run stamps nothing");
    let narrow = Thresholds { warn: at_most(40.0), alarm: at_most(50.0) };
    o.ns.set_limits(MetricId(1), MetricLimits::numeric(narrow)).unwrap();
    o.ns.end_migration(false);
    assert!(o.ns.limits(MetricId(1)).unwrap().overridden, "a run leaves the limits alone");
    assert_eq!(o.ns.begin_migration().unwrap(), Some(2));
}

#[test]
fn a_run_without_a_step_leaves_no_namespace() {
    let (disk, metas) = (Disk::new(), Metas::default());
    let mut b = bench(&disk, 1);
    let meta = NsMeta { schema_name: "radio".to_owned(), protocol_version: 1 };
    metas.borrow_mut().insert("orc-radio-0".to_owned(), meta.encode().unwrap());
    let v3 =
        Schema { version: ProtocolVersion(3), migrations: migration(&[], &[], true), ..schema() };
    let bytes = meta.encode().unwrap();
    let e = NsMeta::open(Some(&bytes), "", "orc-radio-0", &v3).unwrap_err();
    assert!(matches!(e, Error::MissingMigration { from: 2, to: 3, .. }), "{e:?}");
    assert!(b.open("orc-radio-0", v3, &metas).is_err());
}
