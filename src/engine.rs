//! The storage engine: a single writer appending records to numbered data
//! files, an index of live keys, recovery from file contents and merging.
use vstd::prelude::*;
use crate::codec::{
    HEADER_LEN, TOMBSTONE, Rec, Decoded, Decode, decode_spec, records_of, clean, record_bytes,
    fits, opt_view, encode_record, decode_at, push_all, copy_range, lemma_decode_encode,
    lemma_decode_len, lemma_scan_step,
};
use crate::keydir::{Entry, KeyDir, lookup};

verus! {

/// One data file: its id and its contents.
pub struct DataFile {
    pub id: u64,
    pub bytes: Vec<u8>,
}

/// A data file seen as its id and its bytes.
pub type FileView = (u64, Seq<u8>);

pub open spec fn views(files: Seq<DataFile>) -> Seq<FileView> {
    files.map_values(|f: DataFile| (f.id, f.bytes@))
}

/// When written records are forced to stable storage.
#[derive(Clone, Copy, PartialEq, Eq, Structural, Debug)]
pub enum SyncPolicy {
    EveryWrite,
    IntervalMs(u64),
    OnRotate,
}

/// The engine's settings.
#[derive(Clone, Copy, PartialEq, Eq, Structural, Debug)]
pub struct Config {
    /// A data file that reaches this size is sealed and a new one started.
    pub max_file_size: u64,
    /// Sealed bytes below which no merge is due.
    pub merge_trigger_bytes: u64,
    /// Live share of sealed bytes, in percent, below which a merge is due.
    pub min_live_percent: u64,
    pub sync_policy: SyncPolicy,
}

impl Config {
    /// Two GiB files, merges from 64 MiB of sealed data or under half live,
    /// a sync after every write.
    pub fn new() -> (r: Config)
        ensures
            r.max_file_size == 2147483648,
            r.merge_trigger_bytes == 67108864,
            r.min_live_percent == 50,
            r.sync_policy == SyncPolicy::EveryWrite,
    {
        Config {
            max_file_size: 2147483648,
            merge_trigger_bytes: 67108864,
            min_live_percent: 50,
            sync_policy: SyncPolicy::EveryWrite,
        }
    }
}

/// Why an operation was refused. A refused operation changes nothing.
#[derive(Clone, Copy, PartialEq, Eq, Structural, Debug)]
pub enum EngineError {
    /// Keys must hold at least one byte.
    EmptyKey,
    /// A key longer than a record's key size field holds.
    KeyTooLarge,
    /// A value whose size would read as a tombstone, or longer.
    ValueTooLarge,
    /// The active file cannot grow by the record.
    OutOfSpace,
    /// No timestamp after the last one is left.
    ClockExhausted,
    /// No file id after the last one is left.
    FileIdExhausted,
    /// Files handed to recovery are not in strictly ascending id order.
    UnorderedFiles,
}

/// The store as a map: applying one record.
pub open spec fn step(m: Map<Seq<u8>, Seq<u8>>, r: Rec) -> Map<Seq<u8>, Seq<u8>> {
    match r.value {
        Some(v) => m.insert(r.key, v),
        None => m.remove(r.key),
    }
}

/// Applying records in order.
pub open spec fn apply(m: Map<Seq<u8>, Seq<u8>>, recs: Seq<Rec>) -> Map<Seq<u8>, Seq<u8>>
    decreases recs.len(),
{
    if recs.len() == 0 {
        m
    } else {
        step(apply(m, recs.drop_last()), recs.last())
    }
}

/// Every record of every file, files in order.
pub open spec fn all_records(fs: Seq<FileView>) -> Seq<Rec>
    decreases fs.len(),
{
    if fs.len() == 0 {
        Seq::empty()
    } else {
        all_records(fs.drop_last()) + records_of(fs.last().1)
    }
}

/// The contents that a set of files stands for: later records win.
pub open spec fn replay(fs: Seq<FileView>) -> Map<Seq<u8>, Seq<u8>> {
    apply(Map::empty(), all_records(fs))
}

/// File `i` holds `v` where `e` points.
pub open spec fn value_at(fs: Seq<FileView>, i: int, e: Entry, v: Seq<u8>) -> bool {
    &&& 0 <= i < fs.len()
    &&& fs[i].0 == e.file_id
    &&& e.value_size == v.len()
    &&& e.value_offset + e.value_size <= fs[i].1.len()
    &&& fs[i].1.subrange(e.value_offset as int, e.value_offset + e.value_size) == v
}

pub open spec fn holds_value(fs: Seq<FileView>, e: Entry, v: Seq<u8>) -> bool {
    exists|i: int| #[trigger] value_at(fs, i, e, v)
}

/// `b` has the files of `a`, each grown at its end or left as it was, and
/// perhaps more files after them.
pub open spec fn extends(a: Seq<FileView>, b: Seq<FileView>) -> bool {
    &&& a.len() <= b.len()
    &&& forall|i: int|
        0 <= i < a.len() ==> (#[trigger] b[i]).0 == a[i].0 && a[i].1.len() <= b[i].1.len()
            && b[i].1.subrange(0, a[i].1.len() as int) == a[i].1
}

pub open spec fn ascending(fs: Seq<FileView>) -> bool {
    forall|i: int, j: int| 0 <= i < j < fs.len() ==> fs[i].0 < fs[j].0
}

proof fn lemma_extends_holds(a: Seq<FileView>, b: Seq<FileView>, e: Entry, v: Seq<u8>)
    requires
        extends(a, b),
        holds_value(a, e, v),
    ensures
        holds_value(b, e, v),
{
    let i = choose|i: int| #[trigger] value_at(a, i, e, v);
    let _ = b[i];
    assert(b[i].1.subrange(e.value_offset as int, e.value_offset + e.value_size) =~= b[i].1.subrange(
        0,
        a[i].1.len() as int,
    ).subrange(e.value_offset as int, e.value_offset + e.value_size));
    assert(value_at(b, i, e, v));
}

proof fn lemma_apply_push(m: Map<Seq<u8>, Seq<u8>>, recs: Seq<Rec>, r: Rec)
    ensures
        apply(m, recs.push(r)) == step(apply(m, recs), r),
{
    assert(recs.push(r).drop_last() =~= recs);
}

proof fn lemma_all_records_grow_last(fs: Seq<FileView>, t: Seq<u8>, r: Rec)
    requires
        fs.len() > 0,
        clean(fs.last().1),
        decode_spec(t) == Decoded::Record(r, t.len()),
    ensures
        all_records(fs.update(fs.len() - 1, (fs.last().0, fs.last().1 + t))) == all_records(fs).push(r),
        clean(fs.last().1 + t),
{
    let g = fs.update(fs.len() - 1, (fs.last().0, fs.last().1 + t));
    crate::codec::lemma_append_record(fs.last().1, t, r);
    assert(g.drop_last() =~= fs.drop_last());
    assert(all_records(g) =~= all_records(fs).push(r));
}

proof fn lemma_all_records_push_empty(fs: Seq<FileView>, id: u64)
    ensures
        all_records(fs.push((id, Seq::empty()))) == all_records(fs),
{
    assert(fs.push((id, Seq::empty())).drop_last() =~= fs);
    assert(decode_spec(Seq::<u8>::empty()) is EndOfFile);
    assert(records_of(Seq::<u8>::empty()) =~= Seq::<Rec>::empty());
    assert(all_records(fs.push((id, Seq::empty()))) =~= all_records(fs));
}


proof fn lemma_all_records_same(a: Seq<FileView>, b: Seq<FileView>)
    requires
        a.len() == b.len(),
        forall|i: int| 0 <= i < a.len() ==> records_of(#[trigger] a[i].1) == records_of(b[i].1),
    ensures
        all_records(a) == all_records(b),
    decreases a.len(),
{
    if a.len() > 0 {
        lemma_all_records_same(a.drop_last(), b.drop_last());
        assert(records_of(a[a.len() - 1].1) == records_of(b[b.len() - 1].1));
    }
}

proof fn lemma_all_records_prefix(fs: Seq<FileView>, i: int)
    requires
        0 <= i < fs.len(),
    ensures
        all_records(fs.subrange(0, i + 1)) == all_records(fs.subrange(0, i)) + records_of(fs[i].1),
{
    assert(fs.subrange(0, i + 1).drop_last() =~= fs.subrange(0, i));
}

/// The `i`-th file after recovery: the input file cut back to its clean prefix.
pub open spec fn recovered_file(input: FileView, out: FileView) -> bool {
    &&& out.0 == input.0
    &&& out.1.len() <= input.1.len()
    &&& out.1 == input.1.subrange(0, out.1.len() as int)
    &&& clean(out.1)
    &&& records_of(out.1) == records_of(input.1)
}

/// Every key and value can be written as a record again.
pub open spec fn sizes_fit(m: Map<Seq<u8>, Seq<u8>>) -> bool {
    forall|k: Seq<u8>| #[trigger] m.contains_key(k) ==> k.len() <= u32::MAX && m[k].len() < TOMBSTONE
}


/// Bytes that compacting `keys` of `m`, in that order, writes.
pub open spec fn merged_size(m: Map<Seq<u8>, Seq<u8>>, keys: Seq<Seq<u8>>) -> int
    decreases keys.len(),
{
    if keys.len() == 0 {
        0
    } else {
        merged_size(m, keys.drop_last()) + HEADER_LEN + keys.last().len() + m[keys.last()].len()
    }
}

proof fn lemma_merged_size_mono(m: Map<Seq<u8>, Seq<u8>>, keys: Seq<Seq<u8>>, i: int)
    requires
        0 <= i <= keys.len(),
    ensures
        merged_size(m, keys.subrange(0, i)) <= merged_size(m, keys),
    decreases keys.len(),
{
    if i < keys.len() {
        assert(keys.drop_last().subrange(0, i) =~= keys.subrange(0, i));
        lemma_merged_size_mono(m, keys.drop_last(), i);
    } else {
        assert(keys.subrange(0, i) =~= keys);
    }
}


/// One operation of a sequence handed to `Engine::run`.
pub enum Op {
    Write { key: Vec<u8>, value: Vec<u8> },
    Delete { key: Vec<u8> },
}

/// An operation on the contents.
pub enum OpSpec {
    Write(Seq<u8>, Seq<u8>),
    Delete(Seq<u8>),
}

impl View for Op {
    type V = OpSpec;

    open spec fn view(&self) -> OpSpec {
        match self {
            Op::Write { key, value } => OpSpec::Write(key@, value@),
            Op::Delete { key } => OpSpec::Delete(key@),
        }
    }
}

/// The operations as values.
pub open spec fn op_views(ops: Seq<Op>) -> Seq<OpSpec> {
    ops.map_values(|o: Op| o@)
}

/// A plain map that applies the same operations: the reference the store
/// is held to.
pub open spec fn reference(m: Map<Seq<u8>, Seq<u8>>, ops: Seq<OpSpec>) -> Map<Seq<u8>, Seq<u8>>
    decreases ops.len(),
{
    if ops.len() == 0 {
        m
    } else {
        let m0 = reference(m, ops.drop_last());
        match ops.last() {
            OpSpec::Write(k, v) => m0.insert(k, v),
            OpSpec::Delete(k) => m0.remove(k),
        }
    }
}


/// The bytes of all files.
pub open spec fn total_bytes(fs: Seq<FileView>) -> int
    decreases fs.len(),
{
    if fs.len() == 0 {
        0
    } else {
        total_bytes(fs.drop_last()) + fs.last().1.len()
    }
}

/// The bytes of the records that `index` points into files other than
/// `active`, over `keys`.
pub open spec fn live_sealed(index: Map<Seq<u8>, Entry>, keys: Seq<Seq<u8>>, active: u64) -> int
    decreases keys.len(),
{
    if keys.len() == 0 {
        0
    } else {
        let k = keys.last();
        live_sealed(index, keys.drop_last(), active) + if index[k].file_id != active {
            HEADER_LEN + k.len() + index[k].value_size
        } else {
            0int
        }
    }
}

/// The engine: data files in ascending id order, the last one active.
pub struct Engine {
    config: Config,
    files: Vec<DataFile>,
    keydir: KeyDir,
    last_ts: u64,
    model: Ghost<Map<Seq<u8>, Seq<u8>>>,
}

impl View for Engine {
    type V = Map<Seq<u8>, Seq<u8>>;

    /// The live keys and their values.
    closed spec fn view(&self) -> Map<Seq<u8>, Seq<u8>> {
        self.model@
    }
}

impl Engine {
    /// The data files, ids and bytes.
    pub closed spec fn file_views(&self) -> Seq<FileView> {
        views(self.files@)
    }

    pub closed spec fn config_spec(&self) -> Config {
        self.config
    }

    pub closed spec fn last_timestamp(&self) -> u64 {
        self.last_ts
    }

    pub open spec fn active_len(&self) -> int {
        self.file_views().last().1.len() as int
    }

    pub open spec fn active_id(&self) -> u64 {
        self.file_views().last().0
    }

    pub closed spec fn wf(&self) -> bool {
        let fs = self.file_views();
        &&& self.keydir.wf()
        &&& fs.len() >= 1
        &&& ascending(fs)
        &&& forall|i: int| 0 <= i < fs.len() ==> clean(#[trigger] fs[i].1)
        &&& self.model@ == replay(fs)
        &&& self.keydir@.dom() == self.model@.dom()
        &&& forall|k: Seq<u8>|
            #[trigger] self.model@.contains_key(k) ==> holds_value(fs, self.keydir@[k], self.model@[k])
        &&& sizes_fit(self.model@)
    }

    /// What the engine's invariant gives its users: the files are whole
    /// records in ascending id order, the contents are their replay, and
    /// the live keys (the order a merge writes them in) are the contents'
    /// keys, each once.
    pub proof fn lemma_wf(&self)
        requires
            self.wf(),
        ensures
            self.file_views().len() >= 1,
            ascending(self.file_views()),
            forall|i: int|
                0 <= i < self.file_views().len() ==> clean(#[trigger] self.file_views()[i].1),
            self@ == replay(self.file_views()),
            self.live_keys().no_duplicates(),
            self.live_keys().to_set() == self@.dom(),
            self.index().dom() == self@.dom(),
    {
        self.keydir.lemma_keys();
        assert(self.live_keys().to_set() =~= self@.dom());
    }

    /// Why a write of a record with a key of `klen` bytes and a value of
    /// `vlen` bytes would be refused, if it would.
    pub open spec fn write_error(&self, klen: int, vlen: int) -> Option<EngineError> {
        let n = HEADER_LEN + klen + vlen;
        if klen > u32::MAX {
            Some(EngineError::KeyTooLarge)
        } else if vlen >= TOMBSTONE {
            Some(EngineError::ValueTooLarge)
        } else if self.last_timestamp() == u64::MAX {
            Some(EngineError::ClockExhausted)
        } else if self.active_len() + n > usize::MAX {
            Some(EngineError::OutOfSpace)
        } else if self.active_len() + n >= self.config_spec().max_file_size && self.active_id()
            == u64::MAX {
            Some(EngineError::FileIdExhausted)
        } else {
            None
        }
    }

    /// The timestamp that the next record gets when the clock reads `now`.
    pub open spec fn next_timestamp(&self, now: u64) -> u64 {
        if now > self.last_timestamp() {
            now
        } else {
            (self.last_timestamp() + 1) as u64
        }
    }

    /// An empty store: one empty active file with id 1.
    pub fn new(config: Config) -> (r: Engine)
        ensures
            r.wf(),
            r@ == Map::<Seq<u8>, Seq<u8>>::empty(),
            r.file_views() == seq![(1u64, Seq::<u8>::empty())],
            r.config_spec() == config,
            r.last_timestamp() == 0,
    {
        let mut files: Vec<DataFile> = Vec::new();
        files.push(DataFile { id: 1, bytes: Vec::new() });
        let r = Engine {
            config,
            files,
            keydir: KeyDir::new(),
            last_ts: 0,
            model: Ghost(Map::empty()),
        };
        assert(r.files@[0].bytes@ =~= Seq::<u8>::empty());
        assert(r.file_views() =~= seq![(1u64, Seq::<u8>::empty())]);
        assert(decode_spec(Seq::<u8>::empty()) is EndOfFile);
        assert(records_of(Seq::<u8>::empty()) =~= Seq::<Rec>::empty());
        assert(r.file_views().drop_last() =~= Seq::<FileView>::empty());
        assert(all_records(Seq::<FileView>::empty()) =~= Seq::<Rec>::empty());
        assert(all_records(r.file_views()) =~= Seq::<Rec>::empty());
        r
    }

    /// The value of `key`.
    pub fn get(&self, key: &[u8]) -> (r: Option<Vec<u8>>)
        requires
            self.wf(),
        ensures
            match r {
                Some(v) => self@.contains_key(key@) && v@ == self@[key@],
                None => !self@.contains_key(key@),
            },
    {
        match self.keydir.get(key) {
            None => None,
            Some(e) => {
                let ghost fs = self.file_views();
                assert(self.keydir@.contains_key(key@));
                assert(self.model@.contains_key(key@));
                assert(holds_value(fs, e, self.model@[key@]));
                let ghost fi = choose|i: int| #[trigger] value_at(fs, i, e, self.model@[key@]);
                let mut i: usize = 0;
                while i < self.files.len()
                    invariant
                        self.wf(),
                        fs == self.file_views(),
                        i <= fs.len(),
                        self.model@.contains_key(key@),
                        value_at(fs, fi, e, self.model@[key@]),
                        forall|j: int| 0 <= j < i ==> fs[j].0 != e.file_id,
                    decreases fs.len() - i,
                {
                    if self.files[i].id == e.file_id {
                        assert(fs[i as int].0 == e.file_id);
                        assert(i as int == fi) by {
                            if (i as int) < fi {
                                assert(fs[i as int].0 < fs[fi].0);
                            } else if (i as int) > fi {
                                assert(fs[fi].0 < fs[i as int].0);
                            }
                        }
                        let flen = self.files[i].bytes.len();
                        assert(fs[i as int].1.len() == flen);
                        let start = e.value_offset as usize;
                        let end = start + e.value_size as usize;
                        let v = copy_range(self.files[i].bytes.as_slice(), start, end);
                        return Some(v);
                    }
                    i = i + 1;
                }
                assert(fs[fi].0 == e.file_id);
                None
            },
        }
    }

    fn check_write(&self, klen: usize, vlen: usize) -> (r: Option<EngineError>)
        requires
            self.wf(),
        ensures
            r == self.write_error(klen as int, vlen as int),
    {
        if klen as u64 > 0xFFFF_FFFFu64 {
            return Some(EngineError::KeyTooLarge);
        }
        if vlen as u64 >= TOMBSTONE as u64 {
            return Some(EngineError::ValueTooLarge);
        }
        if self.last_ts == u64::MAX {
            return Some(EngineError::ClockExhausted);
        }
        let last = self.files.len() - 1;
        let alen = self.files[last].bytes.len();
        let n: u64 = HEADER_LEN as u64 + klen as u64 + vlen as u64;
        if n > (usize::MAX as u64) - (alen as u64) {
            return Some(EngineError::OutOfSpace);
        }
        if alen as u64 + n >= self.config.max_file_size && self.files[last].id == u64::MAX {
            return Some(EngineError::FileIdExhausted);
        }
        None
    }

    /// Appends one record for `key`, a value or a tombstone, rotating the
    /// active file once it reaches the size limit, and updates the index.
    #[verifier::rlimit(100)]
    #[verifier::spinoff_prover]
    fn write(&mut self, key: &[u8], value: Option<&[u8]>, now: u64) -> (ts: u64)
        requires
            old(self).wf(),
            old(self).write_error(
                key@.len() as int,
                crate::codec::value_bytes(opt_view(value)).len() as int,
            ) is None,
        ensures
            final(self).wf(),
            ts == old(self).next_timestamp(now),
            final(self)@ == step(old(self)@, Rec { timestamp: ts, key: key@, value: opt_view(value) }),
            final(self).config_spec() == old(self).config_spec(),
            final(self).last_timestamp() == ts,
            final(self).file_views() == old(self).files_after(
                record_bytes(Rec { timestamp: ts, key: key@, value: opt_view(value) }),
            ),
    {
        let ghost fs0 = self.file_views();
        let ghost m0 = self.model@;
        let ts = if now > self.last_ts {
            now
        } else {
            self.last_ts + 1
        };
        let rec = encode_record(ts, key, value);
        let ghost r = Rec { timestamp: ts, key: key@, value: opt_view(value) };
        proof {
            lemma_decode_encode(r, Seq::empty());
            assert(record_bytes(r) + Seq::<u8>::empty() =~= record_bytes(r));
        }
        let mut f = self.files.pop().unwrap();
        let ghost old_bytes = f.bytes@;
        assert(old_bytes == fs0.last().1);
        let offset = f.bytes.len() + HEADER_LEN + key.len();
        push_all(&mut f.bytes, rec.as_slice());
        let fid = f.id;
        let flen = f.bytes.len();
        self.files.push(f);
        let ghost grown = fs0.update(fs0.len() - 1, (fs0.last().0, fs0.last().1 + rec@));
        assert(self.file_views() =~= grown);
        proof {
            lemma_all_records_grow_last(fs0, rec@, r);
            lemma_apply_push(Map::empty(), all_records(fs0), r);
        }
        if flen as u64 >= self.config.max_file_size {
            self.files.push(DataFile { id: fid + 1, bytes: Vec::new() });
            proof {
                lemma_all_records_push_empty(grown, (fid + 1) as u64);
            }
            assert(self.files@.last().bytes@ =~= Seq::<u8>::empty());
            assert(self.file_views() =~= grown.push(((fid + 1) as u64, Seq::<u8>::empty())));
        }
        self.last_ts = ts;
        let ghost fs1 = self.file_views();
        let ghost li = fs0.len() - 1;
        match value {
            Some(v) => {
                let e = Entry {
                    file_id: fid,
                    value_offset: offset as u64,
                    value_size: v.len() as u32,
                    timestamp: ts,
                };
                let k = copy_range(key, 0, key.len());
                assert(k@ =~= key@);
                self.keydir.upsert(k, e);
                proof {
                    let p = crate::codec::payload(r);
                    assert(fs1[li].1 == old_bytes + record_bytes(r));
                    assert(fs1[li].1.subrange(offset as int, offset + v@.len()) =~= v@);
                    assert(value_at(fs1, li, e, v@));
                }
            },
            None => {
                self.keydir.remove(key);
            },
        }
        self.model = Ghost(step(m0, r));
        proof {
            assert(extends(fs0, fs1)) by {
                assert forall|i: int| 0 <= i < fs0.len() implies (#[trigger] fs1[i]).0 == fs0[i].0
                    && fs0[i].1.len() <= fs1[i].1.len() && fs1[i].1.subrange(0, fs0[i].1.len() as int)
                    == fs0[i].1 by {
                    if i == li {
                        assert(fs1[i].1.subrange(0, fs0[i].1.len() as int) =~= fs0[i].1);
                    }
                }
            }
            assert forall|i: int, j: int| 0 <= i < j < fs1.len() implies fs1[i].0 < fs1[j].0 by {
                if j < fs0.len() {
                    assert(fs0[i].0 < fs0[j].0);
                } else if i < li {
                    assert(fs0[i].0 < fs0[li].0);
                }
            }
            assert forall|i: int| 0 <= i < fs1.len() implies clean(#[trigger] fs1[i].1) by {
                if i < li {
                    assert(clean(fs0[i].1));
                } else if i > li {
                    assert(fs1[i].1 == Seq::<u8>::empty());
                    assert(decode_spec(Seq::<u8>::empty()) is EndOfFile);
                }
            }
            assert(self.keydir@.dom() =~= self.model@.dom());
            assert(sizes_fit(self.model@));
            assert forall|k: Seq<u8>| #[trigger] self.model@.contains_key(k) implies holds_value(
                fs1,
                self.keydir@[k],
                self.model@[k],
            ) by {
                if k != key@ {
                    lemma_extends_holds(fs0, fs1, self.keydir@[k], self.model@[k]);
                }
            }
        }
        ts
    }

    /// The files after the active one grows by `bytes`, with a new empty
    /// active file once it reaches the size limit.
    pub open spec fn files_after(&self, bytes: Seq<u8>) -> Seq<FileView> {
        let fs = self.file_views();
        let grown = fs.update(fs.len() - 1, (self.active_id(), fs.last().1 + bytes));
        if grown.last().1.len() >= self.config_spec().max_file_size {
            grown.push(((self.active_id() + 1) as u64, Seq::<u8>::empty()))
        } else {
            grown
        }
    }

    /// Why `set(key, value)` would be refused, if it would.
    pub open spec fn set_error(&self, key: Seq<u8>, value: Seq<u8>) -> Option<EngineError> {
        if key.len() == 0 {
            Some(EngineError::EmptyKey)
        } else {
            self.write_error(key.len() as int, value.len() as int)
        }
    }

    /// Stores `value` under `key`, the clock reading `now` milliseconds.
    /// Keys must not be empty; values may be.
    pub fn set(&mut self, key: &[u8], value: &[u8], now: u64) -> (r: Result<(), EngineError>)
        requires
            old(self).wf(),
        ensures
            final(self).wf(),
            r == match old(self).set_error(key@, value@) {
                Some(e) => Err(e),
                None => Ok(()),
            },
            r is Ok ==> set_done(*old(self), *final(self), key@, value@, now),
            r is Err ==> unchanged(*old(self), *final(self)),
            final(self).config_spec() == old(self).config_spec(),
    {
        if key.len() == 0 {
            return Err(EngineError::EmptyKey);
        }
        match self.check_write(key.len(), value.len()) {
            Some(e) => Err(e),
            None => {
                self.write(key, Some(value), now);
                Ok(())
            },
        }
    }

    /// Why `del(key)` would be refused, if it would.
    pub open spec fn del_error(&self, key: Seq<u8>) -> Option<EngineError> {
        if self@.contains_key(key) {
            self.write_error(key.len() as int, 0)
        } else {
            None
        }
    }

    /// Deletes `key`: whether it was live. A live key gets a tombstone; an
    /// absent one writes nothing.
    pub fn del(&mut self, key: &[u8], now: u64) -> (r: Result<bool, EngineError>)
        requires
            old(self).wf(),
        ensures
            final(self).wf(),
            r == match old(self).del_error(key@) {
                Some(e) => Err(e),
                None => Ok(old(self)@.contains_key(key@)),
            },
            r is Ok ==> del_done(*old(self), *final(self), key@, now),
            r is Err ==> unchanged(*old(self), *final(self)),
            final(self).config_spec() == old(self).config_spec(),
    {
        match self.keydir.get(key) {
            None => {
                assert(self.model@.remove(key@) =~= self.model@);
                Ok(false)
            },
            Some(_) => match self.check_write(key.len(), 0) {
                Some(e) => Err(e),
                None => {
                    self.write(key, None, now);
                    Ok(true)
                },
            },
        }
    }

    /// Reopens a store from the contents of its data files, in ascending id
    /// order. Each file is cut back to its longest prefix of whole, intact
    /// records; the records kept are replayed in order, later ones winning.
    /// With no files, the store starts empty with one active file.
    #[verifier::rlimit(100)]
    pub fn recover(config: Config, files: &Vec<DataFile>) -> (r: Result<Engine, EngineError>)
        ensures
            r is Err <==> !ascending(views(files@)),
            r is Err ==> r == Err::<Engine, EngineError>(EngineError::UnorderedFiles),
            r matches Ok(e) ==> {
                &&& e.wf()
                &&& e.config_spec() == config
                &&& e@ == replay(views(files@))
                &&& files@.len() == 0 ==> e.file_views() == seq![(1u64, Seq::<u8>::empty())]
                &&& files@.len() > 0 ==> e.file_views().len() == files@.len()
                &&& forall|i: int|
                    0 <= i < files@.len() ==> recovered_file(
                        #[trigger] views(files@)[i],
                        e.file_views()[i],
                    )
            },
    {
        let ghost ins = views(files@);
        let mut i: usize = 1;
        while i < files.len()
            invariant
                ins == views(files@),
                files@.len() == 0 || 1 <= i <= files@.len(),
                forall|a: int, b: int| 0 <= a < b < i && b < files@.len() ==> ins[a].0 < ins[b].0,
            decreases files@.len() - i,
        {
            if files[i - 1].id >= files[i].id {
                assert(ins[i - 1].0 >= ins[i as int].0);
                return Err(EngineError::UnorderedFiles);
            }
            assert forall|a: int, b: int| 0 <= a < b < i + 1 && b < files@.len() implies ins[a].0 < ins[b].0 by {
                if b == i && a < i - 1 {
                    assert(ins[a].0 < ins[i - 1].0);
                }
            }
            i = i + 1;
        }
        if files.len() == 0 {
            let e = Engine::new(config);
            assert(all_records(ins) =~= Seq::<crate::codec::Rec>::empty());
            return Ok(e);
        }
        let mut out: Vec<DataFile> = Vec::new();
        let mut keydir = KeyDir::new();
        let mut model: Ghost<Map<Seq<u8>, Seq<u8>>> = Ghost(Map::empty());
        let mut last_ts: u64 = 0;
        let mut i: usize = 0;
        proof {
            assert(ins.subrange(0, 0) =~= Seq::<FileView>::empty());
        }
        while i < files.len()
            invariant
                ins == views(files@),
                ascending(ins),
                i <= files@.len(),
                out@.len() == i,
                keydir.wf(),
                keydir@.dom() == model@.dom(),
                model@ == apply(Map::empty(), all_records(ins.subrange(0, i as int))),
                sizes_fit(model@),
                forall|j: int| 0 <= j < i ==> recovered_file(ins[j], #[trigger] views(out@)[j]),
                forall|k: Seq<u8>|
                    #[trigger] model@.contains_key(k) ==> holds_value(views(out@), keydir@[k], model@[k]),
            decreases files@.len() - i,
        {
            let ghost cur = ins[i as int].1;
            let ghost fid = ins[i as int].0;
            let ghost base = all_records(ins.subrange(0, i as int));
            let bytes = files[i].bytes.as_slice();
            assert(bytes@ == cur);
            let blen = bytes.len();
            let mut pos: usize = 0;
            proof {
                assert(cur.subrange(0, 0) =~= Seq::<u8>::empty());
                assert(decode_spec(Seq::<u8>::empty()) is EndOfFile);
                assert(records_of(Seq::<u8>::empty()) =~= Seq::<crate::codec::Rec>::empty());
                assert(cur.subrange(0, cur.len() as int) =~= cur);
                assert(base + records_of(cur.subrange(0, 0)) =~= base);
                assert(extends(views(out@), views(out@).push((fid, cur.subrange(0, 0))))) by {
                    assert forall|j: int| 0 <= j < views(out@).len() implies (#[trigger] views(out@).push((fid, cur.subrange(0, 0)))[j]).0 == views(out@)[j].0
                        && views(out@)[j].1.len() <= views(out@).push((fid, cur.subrange(0, 0)))[j].1.len()
                        && views(out@).push((fid, cur.subrange(0, 0)))[j].1.subrange(0, views(out@)[j].1.len() as int) == views(out@)[j].1 by {
                        assert(views(out@)[j].1.subrange(0, views(out@)[j].1.len() as int) =~= views(out@)[j].1);
                    }
                }
                assert forall|k: Seq<u8>| #[trigger] model@.contains_key(k) implies holds_value(views(out@).push((fid, cur.subrange(0, 0))), keydir@[k], model@[k]) by {
                    lemma_extends_holds(views(out@), views(out@).push((fid, cur.subrange(0, 0))), keydir@[k], model@[k]);
                }
            }
            let mut scanning = true;
            while scanning
                invariant
                    !scanning ==> records_of(cur.subrange(pos as int, cur.len() as int))
                        == Seq::<crate::codec::Rec>::empty(),
                    ins == views(files@),
                    i < files@.len(),
                    fid == ins[i as int].0,
                    cur == ins[i as int].1,
                    base == all_records(ins.subrange(0, i as int)),
                    blen == cur.len(),
                    bytes@ == cur,
                    pos <= cur.len(),
                    clean(cur.subrange(0, pos as int)),
                    records_of(cur) == records_of(cur.subrange(0, pos as int)) + records_of(
                        cur.subrange(pos as int, cur.len() as int),
                    ),
                    keydir.wf(),
                    keydir@.dom() == model@.dom(),
                    model@ == apply(Map::empty(), base + records_of(cur.subrange(0, pos as int))),
                    sizes_fit(model@),
                    forall|k: Seq<u8>|
                        #[trigger] model@.contains_key(k) ==> holds_value(
                            views(out@).push((fid, cur.subrange(0, pos as int))),
                            keydir@[k],
                            model@[k],
                        ),
                decreases (cur.len() - pos) * 2 + if scanning { 1int } else { 0int },
            {
                let ghost tail = cur.subrange(pos as int, cur.len() as int);
                let d = decode_at(bytes, pos);
                match d {
                    Decode::Record { timestamp, key, value, len } => {
                        let ghost r = decode_spec(tail)->Record_0;
                        proof {
                            lemma_decode_len(tail);
                            assert(len as int == decode_spec(tail)->Record_1);
                            assert(len >= HEADER_LEN);
                            lemma_scan_step(cur, pos as int);
                            assert(tail.subrange(len as int, tail.len() as int) =~= cur.subrange(pos + len, cur.len() as int));
                            assert(records_of(tail) =~= seq![r] + records_of(cur.subrange(pos + len, cur.len() as int)));
                            assert((base + records_of(cur.subrange(0, pos as int))).push(r) =~= base + records_of(cur.subrange(0, pos + len)));
                            lemma_apply_push(Map::empty(), base + records_of(cur.subrange(0, pos as int)), r);
                        }
                        let ghost fs_a = views(out@).push((fid, cur.subrange(0, pos as int)));
                        let ghost fs_b = views(out@).push((fid, cur.subrange(0, pos + len)));
                        proof {
                            assert(extends(fs_a, fs_b)) by {
                                assert forall|j: int| 0 <= j < fs_a.len() implies (#[trigger] fs_b[j]).0 == fs_a[j].0
                                    && fs_a[j].1.len() <= fs_b[j].1.len()
                                    && fs_b[j].1.subrange(0, fs_a[j].1.len() as int) == fs_a[j].1 by {
                                    if j == fs_a.len() - 1 {
                                        assert(fs_b[j].1.subrange(0, fs_a[j].1.len() as int) =~= fs_a[j].1);
                                    } else {
                                        assert(fs_b[j].1.subrange(0, fs_a[j].1.len() as int) =~= fs_a[j].1);
                                    }
                                }
                            }
                        }
                        if timestamp > last_ts {
                            last_ts = timestamp;
                        }
                        let ghost m0 = model@;
                        match value {
                            Some(v) => {
                                let e = Entry {
                                    file_id: files[i].id,
                                    value_offset: (pos + HEADER_LEN + key.len()) as u64,
                                    value_size: v.len() as u32,
                                    timestamp,
                                };
                                let ghost kk = key@;
                                keydir.upsert(key, e);
                                proof {
                                    let idx = out@.len() as int;
                                    assert(fs_b[idx].1.subrange(e.value_offset as int, e.value_offset + e.value_size) =~= v@);
                                    assert(value_at(fs_b, idx, e, v@));
                                }
                            },
                            None => {
                                keydir.remove(key.as_slice());
                            },
                        }
                        model = Ghost(step(m0, r));
                        proof {
                            assert(keydir@.dom() =~= model@.dom());
                            assert forall|k: Seq<u8>| #[trigger] model@.contains_key(k) implies holds_value(fs_b, keydir@[k], model@[k]) by {
                                if k != r.key {
                                    lemma_extends_holds(fs_a, fs_b, keydir@[k], model@[k]);
                                }
                            }
                        }
                        pos = pos + len;
                    },
                    _ => {
                        proof {
                            assert(records_of(tail) =~= Seq::<crate::codec::Rec>::empty());
                        }
                        scanning = false;
                    },
                }
            }
            let kept = copy_range(bytes, 0, pos);
            let ghost prev = views(out@);
            out.push(DataFile { id: files[i].id, bytes: kept });
            proof {
                assert(views(out@) =~= prev.push((fid, cur.subrange(0, pos as int))));
                lemma_all_records_prefix(ins, i as int);
                assert(base + records_of(cur) == all_records(ins.subrange(0, i + 1)));
                assert(kept@ == cur.subrange(0, pos as int));
                assert(views(out@)[i as int] == (fid, cur.subrange(0, pos as int)));
                assert(clean(cur.subrange(0, pos as int)));
                assert(records_of(cur) =~= records_of(cur.subrange(0, pos as int)));
                assert(recovered_file(ins[i as int], views(out@)[i as int]));
            }
            i = i + 1;
        }
        proof {
            assert(ins.subrange(0, files@.len() as int) =~= ins);
            lemma_all_records_same(views(out@), ins);
        }
        let e = Engine { config, files: out, keydir, last_ts, model };
        proof {
            assert forall|a: int, b: int| 0 <= a < b < e.file_views().len() implies e.file_views()[a].0 < e.file_views()[b].0 by {
                assert(recovered_file(ins[a], views(e.files@)[a]));
                assert(recovered_file(ins[b], views(e.files@)[b]));
            }
            assert forall|j: int| 0 <= j < e.file_views().len() implies clean(#[trigger] e.file_views()[j].1) by {
                assert(recovered_file(ins[j], views(e.files@)[j]));
            }
        }
        Ok(e)
    }

    /// The live keys, in the order a merge writes them.
    pub closed spec fn live_keys(&self) -> Seq<Seq<u8>> {
        self.keydir.key_seq()
    }

    /// Why `merge` would be refused, if it would.
    pub open spec fn merge_error(&self) -> Option<EngineError> {
        if self.active_id() >= u64::MAX - 1 {
            Some(EngineError::FileIdExhausted)
        } else if merged_size(self@, self.live_keys()) > usize::MAX {
            Some(EngineError::OutOfSpace)
        } else {
            None
        }
    }

    /// Compacts the store. The active file is sealed with the others, and
    /// all of them are replaced by one file, with a fresh id, that holds one
    /// record per live key with its value and timestamp, and by a new empty
    /// active file. Obsolete records and tombstones are gone; the contents
    /// are unchanged.
    #[verifier::rlimit(100)]
    pub fn merge(&mut self) -> (r: Result<(), EngineError>)
        requires
            old(self).wf(),
        ensures
            final(self).wf(),
            final(self)@ == old(self)@,
            final(self).config_spec() == old(self).config_spec(),
            final(self).last_timestamp() == old(self).last_timestamp(),
            r == match old(self).merge_error() {
                Some(e) => Err(e),
                None => Ok(()),
            },
            r is Err ==> final(self).file_views() == old(self).file_views(),
            r is Ok ==> {
                let fs = final(self).file_views();
                &&& fs.len() == 2
                &&& fs[0].0 == old(self).active_id() + 1
                &&& fs[1] == ((old(self).active_id() + 2) as u64, Seq::<u8>::empty())
                &&& fs[0].1.len() == merged_size(old(self)@, old(self).live_keys())
                &&& records_of(fs[0].1).len() == old(self)@.dom().len()
                &&& records_of(fs[0].1).len() == old(self).live_keys().len()
                &&& forall|j: int|
                    0 <= j < records_of(fs[0].1).len() ==> #[trigger] records_of(fs[0].1)[j] == merged_record(
                        old(self)@,
                        old(self).index(),
                        old(self).live_keys()[j],
                    )
            },
    {
        let last = self.files.len() - 1;
        assert(self.files@[last as int].id == self.active_id());
        if self.files[last].id >= u64::MAX - 1 {
            return Err(EngineError::FileIdExhausted);
        }
        let mid = self.files[last].id + 1;
        let ghost keys = self.live_keys();
        let ghost m = self@;
        proof {
            self.keydir.lemma_keys();
            lemma_merged_size_mono(m, keys, 0);
            assert(keys.subrange(0, 0) =~= Seq::<Seq<u8>>::empty());
            assert(decode_spec(Seq::<u8>::empty()) is EndOfFile);
            assert(records_of(Seq::<u8>::empty()) =~= Seq::<Rec>::empty());
            assert(m.restrict(Set::empty()) =~= Map::empty());
            assert(keys.subrange(0, 0).to_set() =~= Set::<Seq<u8>>::empty());
        }
        let n = self.keydir.len();
        let mut merged: Vec<u8> = Vec::new();
        let mut dir = KeyDir::new();
        let mut i: usize = 0;
        while i < n
            invariant
                self.wf(),
                keys == self.live_keys(),
                m == self@,
                keys.no_duplicates(),
                n == keys.len(),
                forall|j: int| 0 <= j < keys.len() ==> #[trigger] m.contains_key(keys[j]),
                forall|k: Seq<u8>| #[trigger] m.contains_key(k) ==> keys.contains(k),
                i <= n,
                self.files@.len() - 1 == last,
                self.file_views().last().0 + 1 == mid,
                self.active_id() < u64::MAX - 1,
                merged@.len() == merged_size(m, keys.subrange(0, i as int)),
                clean(merged@),
                records_of(merged@).len() == i,
                forall|j: int|
                    0 <= j < records_of(merged@).len() ==> #[trigger] records_of(merged@)[j] == merged_record(
                        m,
                        self.index(),
                        keys[j],
                    ),
                apply(Map::empty(), records_of(merged@)) == m.restrict(keys.subrange(0, i as int).to_set()),
                dir.wf(),
                dir@.dom() == keys.subrange(0, i as int).to_set(),
                forall|k: Seq<u8>|
                    #[trigger] dir@.contains_key(k) ==> m.contains_key(k) && holds_value(seq![(mid, merged@)], dir@[k], m[k]),
            decreases n - i,
        {
            let (k, e) = self.keydir.at(i);
            assert(k@ == keys[i as int]);
            assert(self.keydir@.contains_key(k@));
            assert(self.model@.contains_key(k@));
            let v = self.get(k.as_slice()).unwrap();
            let klen = k.len();
            let vlen = v.len();
            let rec_len: u64 = HEADER_LEN as u64 + klen as u64 + vlen as u64;
            proof {
                assert(keys.subrange(0, i + 1).drop_last() =~= keys.subrange(0, i as int));
                assert(keys.subrange(0, i + 1).last() == keys[i as int]);
                lemma_merged_size_mono(m, keys, i + 1);
                assert(v@ == m[k@]);
                assert(merged_size(m, keys.subrange(0, i + 1)) == merged@.len() + rec_len);
            }
            if rec_len > (usize::MAX as u64) - (merged.len() as u64) {
                return Err(EngineError::OutOfSpace);
            }
            let ghost r = Rec { timestamp: e.timestamp, key: k@, value: Some(v@) };
            let rec = encode_record(e.timestamp, k.as_slice(), Some(v.as_slice()));
            proof {
                lemma_decode_encode(r, Seq::empty());
                assert(record_bytes(r) + Seq::<u8>::empty() =~= record_bytes(r));
                crate::codec::lemma_append_record(merged@, rec@, r);
                assert(r == merged_record(m, self.index(), keys[i as int]));
                lemma_apply_push(Map::empty(), records_of(merged@), r);
            }
            let ghost before = merged@;
            let offset = merged.len() + HEADER_LEN + klen;
            push_all(&mut merged, rec.as_slice());
            let entry = Entry { file_id: mid, value_offset: offset as u64, value_size: vlen as u32, timestamp: e.timestamp };
            let key = copy_range(k.as_slice(), 0, klen);
            assert(key@ =~= k@);
            let ghost d0 = dir@;
            dir.upsert(key, entry);
            proof {
                let fs_a = seq![(mid, before)];
                let fs_b = seq![(mid, merged@)];
                assert(merged@.subrange(offset as int, offset + vlen) =~= v@);
                assert(value_at(fs_b, 0, entry, v@));
                assert(extends(fs_a, fs_b)) by {
                    assert(fs_b[0].1.subrange(0, before.len() as int) =~= before);
                }
                assert forall|q: Seq<u8>| #[trigger] dir@.contains_key(q) implies m.contains_key(q) && holds_value(fs_b, dir@[q], m[q]) by {
                    if q != k@ {
                        lemma_extends_holds(fs_a, fs_b, dir@[q], m[q]);
                    }
                }
                assert(keys.subrange(0, i + 1).to_set() =~= keys.subrange(0, i as int).to_set().insert(k@));
                assert(m.restrict(keys.subrange(0, i + 1).to_set()) =~= m.restrict(keys.subrange(0, i as int).to_set()).insert(k@, v@));
                assert(dir@.dom() =~= keys.subrange(0, i + 1).to_set());
            }
            i = i + 1;
        }
        let total = merged.len();
        proof {
            assert(keys.subrange(0, n as int) =~= keys);
            assert(m.restrict(keys.to_set()) =~= m);
            assert(total as int == merged_size(m, keys));
        }
        let mut files: Vec<DataFile> = Vec::new();
        files.push(DataFile { id: mid, bytes: merged });
        files.push(DataFile { id: mid + 1, bytes: Vec::new() });
        let ghost mb = files@[0].bytes@;
        self.files = files;
        self.keydir = dir;
        proof {
            let fs = self.file_views();
            assert(fs[1].1 =~= Seq::<u8>::empty());
            assert(fs =~= seq![(mid, mb), ((mid + 1) as u64, Seq::<u8>::empty())]);
            lemma_all_records_push_empty(seq![(mid, mb)], (mid + 1) as u64);
            assert(seq![(mid, mb)].push(((mid + 1) as u64, Seq::<u8>::empty())) =~= fs);
            assert(seq![(mid, mb)].drop_last() =~= Seq::<FileView>::empty());
            assert(all_records(Seq::<FileView>::empty()) =~= Seq::<Rec>::empty());
            assert(all_records(seq![(mid, mb)]) =~= records_of(mb));
            assert(clean(fs[1].1));
            assert(self.keydir@.dom() =~= self.model@.dom());
            assert(extends(seq![(mid, mb)], fs)) by {
                assert(fs[0].1.subrange(0, mb.len() as int) =~= mb);
            }
            assert forall|k: Seq<u8>| #[trigger] self.model@.contains_key(k) implies holds_value(fs, self.keydir@[k], self.model@[k]) by {
                lemma_extends_holds(seq![(mid, mb)], fs, self.keydir@[k], self.model@[k]);
            }
            keys.unique_seq_to_set();
            assert(m.dom() =~= keys.to_set());
        }
        Ok(())
    }

    /// The data files, for the host to persist.
    pub fn files(&self) -> (r: &Vec<DataFile>)
        requires
            self.wf(),
        ensures
            views(r@) == self.file_views(),
    {
        &self.files
    }

    pub fn config(&self) -> (r: Config)
        ensures
            r == self.config_spec(),
    {
        self.config
    }

    /// The number of live keys.
    pub fn len(&self) -> (r: usize)
        requires
            self.wf(),
        ensures
            r == self@.dom().len(),
    {
        proof {
            self.keydir.lemma_keys();
            self.keydir.key_seq().unique_seq_to_set();
            assert(self.keydir.key_seq().to_set() =~= self@.dom());
        }
        self.keydir.len()
    }

    /// Seals the active file and starts an empty one with the next id.
    pub fn rotate(&mut self) -> (r: Result<(), EngineError>)
        requires
            old(self).wf(),
        ensures
            final(self).wf(),
            final(self)@ == old(self)@,
            final(self).config_spec() == old(self).config_spec(),
            final(self).last_timestamp() == old(self).last_timestamp(),
            r is Err <==> old(self).active_id() == u64::MAX,
            r is Err ==> r == Err::<(), EngineError>(EngineError::FileIdExhausted) && final(self).file_views()
                == old(self).file_views(),
            r is Ok ==> final(self).file_views() == old(self).file_views().push(
                ((old(self).active_id() + 1) as u64, Seq::<u8>::empty()),
            ),
    {
        let ghost fs0 = self.file_views();
        let last = self.files.len() - 1;
        let id = self.files[last].id;
        assert(id == self.active_id());
        if id == u64::MAX {
            return Err(EngineError::FileIdExhausted);
        }
        self.files.push(DataFile { id: id + 1, bytes: Vec::new() });
        proof {
            let fs1 = self.file_views();
            assert(self.files@.last().bytes@ =~= Seq::<u8>::empty());
            assert(fs1 =~= fs0.push(((id + 1) as u64, Seq::<u8>::empty())));
            lemma_all_records_push_empty(fs0, (id + 1) as u64);
            assert(decode_spec(Seq::<u8>::empty()) is EndOfFile);
            assert(clean(fs1.last().1));
            assert forall|i: int, j: int| 0 <= i < j < fs1.len() implies fs1[i].0 < fs1[j].0 by {
                if j == fs0.len() && i < fs0.len() - 1 {
                    assert(fs0[i].0 < fs0[fs0.len() - 1].0);
                }
            }
            assert(extends(fs0, fs1)) by {
                assert forall|i: int| 0 <= i < fs0.len() implies (#[trigger] fs1[i]).0 == fs0[i].0
                    && fs0[i].1.len() <= fs1[i].1.len() && fs1[i].1.subrange(0, fs0[i].1.len() as int)
                    == fs0[i].1 by {
                    assert(fs1[i].1.subrange(0, fs0[i].1.len() as int) =~= fs0[i].1);
                }
            }
            assert forall|k: Seq<u8>| #[trigger] self.model@.contains_key(k) implies holds_value(fs1, self.keydir@[k], self.model@[k]) by {
                lemma_extends_holds(fs0, fs1, self.keydir@[k], self.model@[k]);
            }
        }
        Ok(())
    }

    /// Applies `ops` in order, the clock reading `now`. On success the
    /// contents are those of a plain map that applied the same operations;
    /// the first refused operation stops the run, with its index and error,
    /// after the ones before it.
    pub fn run(&mut self, ops: &Vec<Op>, now: u64) -> (r: Result<(), (usize, EngineError)>)
        requires
            old(self).wf(),
        ensures
            final(self).wf(),
            final(self).config_spec() == old(self).config_spec(),
            r is Ok ==> final(self)@ == reference(old(self)@, op_views(ops@)),
            r matches Err((i, _)) ==> i < ops@.len() && final(self)@ == reference(
                old(self)@,
                op_views(ops@).subrange(0, i as int),
            ),
            r is Ok ==> ops_accepted(*old(self), op_views(ops@), now, *final(self)),
            r matches Err((i, e)) ==> op_refused(*old(self), op_views(ops@), now, i as int, e, *final(self)),
    {
        let ghost all = op_views(ops@);
        let ghost mut states: Seq<Engine> = seq![*self];
        let mut i: usize = 0;
        while i < ops.len()
            invariant
                self.wf(),
                self.config_spec() == old(self).config_spec(),
                all == op_views(ops@),
                i <= ops@.len(),
                self@ == reference(old(self)@, all.subrange(0, i as int)),
                op_chain(*old(self), states, all, now, i as int),
                states[i as int] == *self,
            decreases ops@.len() - i,
        {
            assert(all.subrange(0, i + 1).drop_last() =~= all.subrange(0, i as int));
            assert(all.subrange(0, i + 1).last() == ops@[i as int]@);
            assert(all[i as int] == ops@[i as int]@);
            let ghost si = *self;
            match &ops[i] {
                Op::Write { key, value } => {
                    if let Err(e) = self.set(key.as_slice(), value.as_slice(), now) {
                        assert(op_chain(*old(self), states, all, now, i as int));
                        assert(states[i as int] == si);
                        assert(unchanged(si, *self));
                        assert(op_error(si, ops@[i as int]@) == Some(e));
                        assert(op_chain(*old(self), states, op_views(ops@), now, i as int)
                            && unchanged(states[i as int], *self) && op_error(states[i as int], ops@[i as int]@) == Some(e));
                        assert(op_refused(*old(self), op_views(ops@), now, i as int, e, *self));
                        return Err((i, e));
                    }
                },
                Op::Delete { key } => {
                    if let Err(e) = self.del(key.as_slice(), now) {
                        assert(op_chain(*old(self), states, all, now, i as int));
                        assert(states[i as int] == si);
                        assert(unchanged(si, *self));
                        assert(op_error(si, ops@[i as int]@) == Some(e));
                        assert(op_chain(*old(self), states, op_views(ops@), now, i as int)
                            && unchanged(states[i as int], *self) && op_error(states[i as int], ops@[i as int]@) == Some(e));
                        assert(op_refused(*old(self), op_views(ops@), now, i as int, e, *self));
                        return Err((i, e));
                    }
                },
            }
            proof {
                let prev = states;
                states = states.push(*self);
                assert forall|j: int| 0 <= j < i + 1 implies #[trigger] op_step(states, all, now, j) by {
                    if j < i {
                        assert(op_step(prev, all, now, j));
                        assert(states[j] == prev[j]);
                        assert(states[j + 1] == prev[j + 1]);
                    } else {
                        assert(states[j] == si);
                        assert(states[j + 1] == *self);
                    }
                }
            }
            i = i + 1;
        }
        assert(all.subrange(0, ops@.len() as int) =~= all);
        assert(op_chain(*old(self), states, op_views(ops@), now, ops@.len() as int)
            && unchanged(states.last(), *self));
        assert(ops_accepted(*old(self), op_views(ops@), now, *self));
        Ok(())
    }

    /// Where each live key's value lies.
    pub closed spec fn index(&self) -> Map<Seq<u8>, Entry> {
        self.keydir@
    }

    /// Bytes in sealed files.
    pub open spec fn sealed_bytes(&self) -> int {
        total_bytes(self.file_views().drop_last())
    }

    /// Bytes of live records in sealed files.
    pub open spec fn live_bytes(&self) -> int {
        live_sealed(self.index(), self.live_keys(), self.active_id())
    }

    /// Whether a merge is due: the sealed files hold more than
    /// `merge_trigger_bytes`, or their live share is under
    /// `min_live_percent`.
    pub fn merge_due(&self) -> (r: bool)
        requires
            self.wf(),
        ensures
            r == (self.sealed_bytes() > self.config_spec().merge_trigger_bytes || (self.sealed_bytes()
                > 0 && self.live_bytes() * 100 < self.config_spec().min_live_percent
                * self.sealed_bytes())),
    {
        let ghost fs = self.file_views();
        let last = self.files.len() - 1;
        let active = self.files[last].id;
        let mut sealed: u128 = 0;
        let mut i: usize = 0;
        while i < last
            invariant
                fs == self.file_views(),
                last == fs.len() - 1,
                i <= last,
                sealed == total_bytes(fs.subrange(0, i as int)),
                sealed <= i * 0x1_0000_0000_0000_0000,
            decreases last - i,
        {
            assert(fs.subrange(0, i + 1).drop_last() =~= fs.subrange(0, i as int));
            sealed = sealed + self.files[i].bytes.len() as u128;
            i = i + 1;
        }
        assert(fs.subrange(0, last as int) =~= fs.drop_last());
        let ghost keys = self.live_keys();
        let n = self.keydir.len();
        let mut live: u128 = 0;
        let mut j: usize = 0;
        while j < n
            invariant
                self.wf(),
                keys == self.live_keys(),
                n == keys.len(),
                active == self.active_id(),
                j <= n,
                live == live_sealed(self.index(), keys.subrange(0, j as int), active),
                live <= j * 0x4_0000_0000,
            decreases n - j,
        {
            let (k, e) = self.keydir.at(j);
            assert(keys.subrange(0, j + 1).drop_last() =~= keys.subrange(0, j as int));
            assert(keys.subrange(0, j + 1).last() == k@);
            if e.file_id != active {
                live = live + HEADER_LEN as u128 + k.len() as u128 + e.value_size as u128;
            }
            j = j + 1;
        }
        assert(keys.subrange(0, n as int) =~= keys);
        if sealed > self.config.merge_trigger_bytes as u128 {
            return true;
        }
        let percent = self.config.min_live_percent as u128;
        assert(percent * sealed < 0x1_0000_0000_0000_0000_0000_0000_0000_0000) by (nonlinear_arith)
            requires
                percent < 0x1_0000_0000_0000_0000,
                sealed < 0x1_0000_0000_0000_0000,
        ;
        sealed > 0 && live * 100 < percent * sealed
    }
}

/// The record that a merge writes for `key`: its value, and the timestamp
/// of the record it copies.
pub open spec fn merged_record(m: Map<Seq<u8>, Seq<u8>>, index: Map<Seq<u8>, Entry>, key: Seq<u8>) -> Rec {
    Rec { timestamp: index[key].timestamp, key, value: Some(m[key]) }
}

/// What a successful `set(key, value)` at clock `now` leaves: the key bound
/// to the value, and one record appended to the active file.
pub open spec fn set_done(before: Engine, after: Engine, key: Seq<u8>, value: Seq<u8>, now: u64) -> bool {
    let ts = before.next_timestamp(now);
    &&& after@ == before@.insert(key, value)
    &&& after.last_timestamp() == ts
    &&& after.config_spec() == before.config_spec()
    &&& after.file_views() == before.files_after(
        record_bytes(Rec { timestamp: ts, key, value: Some(value) }),
    )
}

/// What a successful `del(key)` at clock `now` leaves: the key unbound; a
/// tombstone appended where it was live, nothing written where it was not.
pub open spec fn del_done(before: Engine, after: Engine, key: Seq<u8>, now: u64) -> bool {
    &&& after@ == before@.remove(key)
    &&& after.config_spec() == before.config_spec()
    &&& if before@.contains_key(key) {
        let ts = before.next_timestamp(now);
        &&& after.last_timestamp() == ts
        &&& after.file_views() == before.files_after(
            record_bytes(Rec { timestamp: ts, key, value: None }),
        )
    } else {
        &&& after.last_timestamp() == before.last_timestamp()
        &&& after.file_views() == before.file_views()
    }
}


/// Step `j` of a chain of deletions: key `j` is accepted in state `j`, and
/// state `j + 1` is what deleting it leaves.
pub open spec fn del_step(states: Seq<Engine>, keys: Seq<Seq<u8>>, now: u64, j: int) -> bool {
    &&& states[j].del_error(keys[j]) is None
    &&& del_done(states[j], states[j + 1], keys[j], now)
}

/// `states` starts at `start` and deletes the first `n` keys in order, each
/// deletion accepted.
pub open spec fn del_chain(start: Engine, states: Seq<Engine>, keys: Seq<Seq<u8>>, now: u64, n: int) -> bool {
    &&& 0 <= n <= keys.len()
    &&& states.len() == n + 1
    &&& states[0] == start
    &&& forall|j: int| 0 <= j < n ==> #[trigger] del_step(states, keys, now, j)
}

/// Why `op` would be refused in state `s`, if it would.
pub open spec fn op_error(s: Engine, op: OpSpec) -> Option<EngineError> {
    match op {
        OpSpec::Write(k, v) => s.set_error(k, v),
        OpSpec::Delete(k) => s.del_error(k),
    }
}

/// Step `j` of a chain of operations: operation `j` is accepted in state
/// `j`, and state `j + 1` is what it leaves.
pub open spec fn op_step(states: Seq<Engine>, ops: Seq<OpSpec>, now: u64, j: int) -> bool {
    &&& op_error(states[j], ops[j]) is None
    &&& match ops[j] {
        OpSpec::Write(k, v) => set_done(states[j], states[j + 1], k, v, now),
        OpSpec::Delete(k) => del_done(states[j], states[j + 1], k, now),
    }
}

/// `states` starts at `start` and applies the first `n` operations in
/// order, each accepted.
pub open spec fn op_chain(start: Engine, states: Seq<Engine>, ops: Seq<OpSpec>, now: u64, n: int) -> bool {
    &&& 0 <= n <= ops.len()
    &&& states.len() == n + 1
    &&& states[0] == start
    &&& forall|j: int| 0 <= j < n ==> #[trigger] op_step(states, ops, now, j)
}


/// Every operation of `ops` is accepted in turn from `start`, and `fin`
/// is what the last one leaves.
pub open spec fn ops_accepted(start: Engine, ops: Seq<OpSpec>, now: u64, fin: Engine) -> bool {
    exists|states: Seq<Engine>|
        #[trigger] op_chain(start, states, ops, now, ops.len() as int) && unchanged(states.last(), fin)
}

/// From `start`, operations before `i` are accepted in turn, operation `i`
/// is refused with `e`, and `fin` is the state it was refused in.
pub open spec fn op_refused(start: Engine, ops: Seq<OpSpec>, now: u64, i: int, e: EngineError, fin: Engine) -> bool {
    exists|states: Seq<Engine>|
        #[trigger] op_chain(start, states, ops, now, i) && i < ops.len() && unchanged(states[i], fin)
            && op_error(states[i], ops[i]) == Some(e)
}

/// Every key of `keys` is deleted in turn from `start`, and `fin` is what
/// the last deletion leaves.
pub open spec fn dels_accepted(start: Engine, keys: Seq<Seq<u8>>, now: u64, fin: Engine) -> bool {
    exists|states: Seq<Engine>|
        #[trigger] del_chain(start, states, keys, now, keys.len() as int) && unchanged(states.last(), fin)
}

/// From `start`, the deletions of the keys before `i` are accepted in turn,
/// that of key `i` is refused with `e`, and `fin` is the state it was
/// refused in.
pub open spec fn del_refused(start: Engine, keys: Seq<Seq<u8>>, now: u64, i: int, e: EngineError, fin: Engine) -> bool {
    exists|states: Seq<Engine>|
        #[trigger] del_chain(start, states, keys, now, i) && i < keys.len() && unchanged(states[i], fin)
            && states[i].del_error(keys[i]) == Some(e)
}

/// What a refused operation leaves: everything as it was.
pub open spec fn unchanged(before: Engine, after: Engine) -> bool {
    &&& after@ == before@
    &&& after.file_views() == before.file_views()
    &&& after.last_timestamp() == before.last_timestamp()
    &&& after.config_spec() == before.config_spec()
}


} // verus!
