use vstd::prelude::*;
use vstd::bytes::*;
use vstd::utf8::{valid_utf8, encode_utf8, decode_utf8};
use crate::dag::{NodeHandle, PortHandle};
use crate::errors::{ExecutionError, StorageError};

verus! {

/// First key byte of a persisted per-source commit sequence.
pub const SOURCE_ID_IDENTIFIER: u8 = 1;

/// First key byte of a persisted output-port schema.
pub const OUTPUT_SCHEMA_IDENTIFIER: u8 = 2;

/// First key byte of a persisted input-port schema.
pub const INPUT_SCHEMA_IDENTIFIER: u8 = 3;

/// The two big-endian bytes of a port number.
pub open spec fn spec_u16_be(x: u16) -> Seq<u8> {
    seq![(x / 256) as u8, (x % 256) as u8]
}

/// The port number read back from two big-endian bytes.
pub open spec fn spec_u16_from_be(s: Seq<u8>) -> u16
    recommends
        s.len() == 2,
{
    ((s[0] as int) * 256 + (s[1] as int)) as u16
}

/// The eight big-endian bytes of a sequence number.
pub open spec fn spec_u64_be(x: u64) -> Seq<u8> {
    spec_u64_to_le_bytes(x).reverse()
}

/// The sequence number read back from eight big-endian bytes.
pub open spec fn spec_u64_from_be(s: Seq<u8>) -> u64
    recommends
        s.len() == 8,
{
    spec_u64_from_le_bytes(s.reverse())
}

/// Big-endian byte decomposition is invertible.
pub proof fn lemma_u16_be_round_trip(x: u16)
    ensures
        spec_u16_be(x).len() == 2,
        spec_u16_from_be(spec_u16_be(x)) == x,
{
    assert((x / 256) as int * 256 + (x % 256) as int == x as int);
}

/// Big-endian byte decomposition is invertible.
pub proof fn lemma_u64_be_round_trip(x: u64)
    ensures
        spec_u64_be(x).len() == 8,
        spec_u64_from_be(spec_u64_be(x)) == x,
{
    lemma_auto_spec_u64_to_from_le_bytes();
    assert(spec_u64_to_le_bytes(x).reverse().reverse() =~= spec_u64_to_le_bytes(x));
}

/// The bytes of `v` in reverse order.
fn reverse_bytes(v: &Vec<u8>) -> (r: Vec<u8>)
    ensures
        r@ == v@.reverse(),
{
    let mut out: Vec<u8> = Vec::new();
    let mut k: usize = 0;
    while k < v.len()
        invariant
            k <= v.len(),
            out@.len() == k,
            forall|j: int| 0 <= j < k ==> out@[j] == v@[v@.len() - 1 - j],
        decreases v.len() - k,
    {
        out.push(v[v.len() - 1 - k]);
        k = k + 1;
    }
    assert(out@ =~= v@.reverse());
    out
}

/// A copy of a byte string.
pub fn copy_bytes(v: &Vec<u8>) -> (r: Vec<u8>)
    ensures
        r@ == v@,
{
    let mut out: Vec<u8> = Vec::new();
    let mut k: usize = 0;
    while k < v.len()
        invariant
            k <= v.len(),
            out@ == v@.take(k as int),
        decreases v.len() - k,
    {
        out.push(v[k]);
        k = k + 1;
    }
    assert(out@ == v@);
    out
}

/// The big-endian encoding of a port number.
pub fn u16_to_be_vec(x: u16) -> (r: Vec<u8>)
    ensures
        r@ == spec_u16_be(x),
{
    let mut v: Vec<u8> = Vec::new();
    v.push((x / 256) as u8);
    v.push((x % 256) as u8);
    proof {
        assert(v@ =~= spec_u16_be(x));
    }
    v
}

/// The port number carried by two big-endian bytes.
pub fn u16_from_be_pair(b0: u8, b1: u8) -> (r: u16)
    ensures
        r == spec_u16_from_be(seq![b0, b1]),
{
    (b0 as u16) * 256 + (b1 as u16)
}

/// The big-endian encoding of a sequence number.
pub fn u64_to_be_vec(x: u64) -> (r: Vec<u8>)
    ensures
        r@ == spec_u64_be(x),
        r@.len() == 8,
{
    proof {
        lemma_auto_spec_u64_to_from_le_bytes();
    }
    let le = u64_to_le_bytes(x);
    reverse_bytes(&le)
}

/// The sequence number carried by eight big-endian bytes.
pub fn u64_from_be_vec(s: &Vec<u8>) -> (r: u64)
    requires
        s@.len() == 8,
    ensures
        r == spec_u64_from_be(s@),
{
    let rev = reverse_bytes(s);
    u64_from_le_bytes(rev.as_slice())
}

/// Relies on `String::from_utf8_lossy` (std): when the input is valid
/// UTF-8, the returned string consists of exactly those bytes; invalid
/// sequences are replaced, so some string is always returned.
#[verifier::external_body]
fn string_from_utf8_lossy(bytes: &Vec<u8>) -> (r: String)
    ensures
        valid_utf8(bytes@) ==> encode_utf8(r@) == bytes@,
{
    String::from_utf8_lossy(bytes.as_slice()).into_owned()
}

/// One decoded checkpoint record.
#[derive(Clone, Debug, PartialEq, Eq)]
pub enum CheckpointRecord {
    /// The highest sequence number from the named source that this node
    /// has durably committed.
    SourceCommit { handle: NodeHandle, seq: u64 },
    /// The serialized schema this node last emitted on an output port.
    OutputSchema { port: PortHandle, schema: Vec<u8> },
    /// The serialized schema this node last absorbed on an input port.
    InputSchema { port: PortHandle, schema: Vec<u8> },
}

/// The mathematical value of a checkpoint record.
pub enum CheckpointRecordModel {
    SourceCommit { handle: Seq<char>, seq: u64 },
    OutputSchema { port: u16, schema: Seq<u8> },
    InputSchema { port: u16, schema: Seq<u8> },
}

impl View for CheckpointRecord {
    type V = CheckpointRecordModel;

    open spec fn view(&self) -> CheckpointRecordModel {
        match self {
            CheckpointRecord::SourceCommit { handle, seq } => CheckpointRecordModel::SourceCommit {
                handle: handle@,
                seq: *seq,
            },
            CheckpointRecord::OutputSchema { port, schema } => CheckpointRecordModel::OutputSchema {
                port: *port,
                schema: schema@,
            },
            CheckpointRecord::InputSchema { port, schema } => CheckpointRecordModel::InputSchema {
                port: *port,
                schema: schema@,
            },
        }
    }
}

/// The key bytes a record is persisted under: a tag byte, then the
/// handle's UTF-8 bytes or the port's big-endian bytes.
pub open spec fn spec_encode_key(m: CheckpointRecordModel) -> Seq<u8> {
    match m {
        CheckpointRecordModel::SourceCommit { handle, .. } => seq![SOURCE_ID_IDENTIFIER]
            + encode_utf8(handle),
        CheckpointRecordModel::OutputSchema { port, .. } => seq![OUTPUT_SCHEMA_IDENTIFIER]
            + spec_u16_be(port),
        CheckpointRecordModel::InputSchema { port, .. } => seq![INPUT_SCHEMA_IDENTIFIER]
            + spec_u16_be(port),
    }
}

/// The value bytes a record is persisted under: a big-endian sequence
/// number, or the serialized schema itself.
pub open spec fn spec_encode_value(m: CheckpointRecordModel) -> Seq<u8> {
    match m {
        CheckpointRecordModel::SourceCommit { seq, .. } => spec_u64_be(seq),
        CheckpointRecordModel::OutputSchema { schema, .. } => schema,
        CheckpointRecordModel::InputSchema { schema, .. } => schema,
    }
}

/// What decoding a persisted key/value pair yields. For a source-commit
/// key the handle bytes are read back as UTF-8.
pub open spec fn spec_decode_record(key: Seq<u8>, value: Seq<u8>) -> Result<
    CheckpointRecordModel,
    ExecutionError,
> {
    if key.len() == 0 {
        Err(ExecutionError::InternalDatabaseError(StorageError::InvalidRecord))
    } else if key[0] == SOURCE_ID_IDENTIFIER {
        if value.len() != 8 {
            Err(ExecutionError::InternalDatabaseError(StorageError::InvalidRecord))
        } else {
            Ok(
                CheckpointRecordModel::SourceCommit {
                    handle: decode_utf8(key.skip(1)),
                    seq: spec_u64_from_be(value),
                },
            )
        }
    } else if key[0] == OUTPUT_SCHEMA_IDENTIFIER {
        if key.len() != 3 {
            Err(ExecutionError::InvalidPortHandle(0))
        } else {
            Ok(
                CheckpointRecordModel::OutputSchema {
                    port: spec_u16_from_be(key.skip(1)),
                    schema: value,
                },
            )
        }
    } else if key[0] == INPUT_SCHEMA_IDENTIFIER {
        if key.len() != 3 {
            Err(ExecutionError::InvalidPortHandle(0))
        } else {
            Ok(
                CheckpointRecordModel::InputSchema {
                    port: spec_u16_from_be(key.skip(1)),
                    schema: value,
                },
            )
        }
    } else {
        Err(ExecutionError::InternalDatabaseError(StorageError::InvalidRecord))
    }
}

/// All source-commit keys of the dump carry valid UTF-8 handle bytes.
/// Keys written by `encode_record` always do.
pub open spec fn source_keys_valid_utf8(key: Seq<u8>) -> bool {
    key.len() > 0 && key[0] == SOURCE_ID_IDENTIFIER ==> valid_utf8(key.skip(1))
}

/// Encodes a checkpoint record into the key and value bytes it is
/// persisted under.
pub fn encode_record(r: &CheckpointRecord) -> (kv: (Vec<u8>, Vec<u8>))
    ensures
        kv.0@ == spec_encode_key(r@),
        kv.1@ == spec_encode_value(r@),
{
    match r {
        CheckpointRecord::SourceCommit { handle, seq: s } => {
            let mut key: Vec<u8> = Vec::new();
            key.push(SOURCE_ID_IDENTIFIER);
            let hb = handle.as_str().as_bytes();
            let mut k: usize = 0;
            while k < hb.len()
                invariant
                    k <= hb@.len(),
                    key@ == seq![SOURCE_ID_IDENTIFIER] + hb@.take(k as int),
                decreases hb@.len() - k,
            {
                key.push(hb[k]);
                k = k + 1;
            }
            proof {
                assert(key@ =~= spec_encode_key(r@));
            }
            (key, u64_to_be_vec(*s))
        },
        CheckpointRecord::OutputSchema { port, schema } => {
            let mut key: Vec<u8> = Vec::new();
            key.push(OUTPUT_SCHEMA_IDENTIFIER);
            let mut pb = u16_to_be_vec(*port);
            key.append(&mut pb);
            proof {
                assert(key@ =~= spec_encode_key(r@));
            }
            (key, copy_bytes(schema))
        },
        CheckpointRecord::InputSchema { port, schema } => {
            let mut key: Vec<u8> = Vec::new();
            key.push(INPUT_SCHEMA_IDENTIFIER);
            let mut pb = u16_to_be_vec(*port);
            key.append(&mut pb);
            proof {
                assert(key@ =~= spec_encode_key(r@));
            }
            (key, copy_bytes(schema))
        },
    }
}

/// Decodes one persisted key/value pair.
///
/// Mirrors `spec_decode_record` exactly; for a source-commit record the
/// returned handle is faithful whenever the key carries valid UTF-8
/// (other byte sequences are lossily replaced).
pub fn decode_record(key: &Vec<u8>, value: &Vec<u8>) -> (r: Result<
    CheckpointRecord,
    ExecutionError,
>)
    ensures
        r is Ok <==> spec_decode_record(key@, value@) is Ok,
        spec_decode_record(key@, value@) matches Err(e) ==> r == Err::<
            CheckpointRecord,
            ExecutionError,
        >(e),
        r matches Ok(rec) ==> (source_keys_valid_utf8(key@) ==> rec@ == spec_decode_record(
            key@,
            value@,
        ).unwrap()),
        r matches Ok(rec) ==> match rec@ {
            CheckpointRecordModel::SourceCommit { handle, seq } => key@[0]
                == SOURCE_ID_IDENTIFIER && seq == spec_u64_from_be(value@),
            CheckpointRecordModel::OutputSchema { port, schema } => key@[0]
                == OUTPUT_SCHEMA_IDENTIFIER && port == spec_u16_from_be(key@.skip(1)) && schema
                == value@,
            CheckpointRecordModel::InputSchema { port, schema } => key@[0]
                == INPUT_SCHEMA_IDENTIFIER && port == spec_u16_from_be(key@.skip(1)) && schema
                == value@,
        },
{
    if key.len() == 0 {
        return Err(ExecutionError::InternalDatabaseError(StorageError::InvalidRecord));
    }
    let tag = key[0];
    if tag == SOURCE_ID_IDENTIFIER {
        if value.len() != 8 {
            return Err(ExecutionError::InternalDatabaseError(StorageError::InvalidRecord));
        }
        let mut hb: Vec<u8> = Vec::new();
        let mut k: usize = 1;
        while k < key.len()
            invariant
                1 <= k <= key@.len(),
                hb@ == key@.subrange(1, k as int),
            decreases key@.len() - k,
        {
            hb.push(key[k]);
            k = k + 1;
        }
        proof {
            assert(hb@ =~= key@.skip(1));
        }
        let handle = string_from_utf8_lossy(&hb);
        let s = u64_from_be_vec(value);
        proof {
            if valid_utf8(key@.skip(1)) {
                broadcast use vstd::utf8::encode_utf8_decode_utf8;

                assert(encode_utf8(handle@) == key@.skip(1));
                assert(decode_utf8(encode_utf8(handle@)) == handle@);
            }
        }
        Ok(CheckpointRecord::SourceCommit { handle, seq: s })
    } else if tag == OUTPUT_SCHEMA_IDENTIFIER {
        if key.len() != 3 {
            return Err(ExecutionError::InvalidPortHandle(0));
        }
        let port = u16_from_be_pair(key[1], key[2]);
        proof {
            assert(seq![key@[1], key@[2]] =~= key@.skip(1));
        }
        Ok(CheckpointRecord::OutputSchema { port, schema: copy_bytes(value) })
    } else if tag == INPUT_SCHEMA_IDENTIFIER {
        if key.len() != 3 {
            return Err(ExecutionError::InvalidPortHandle(0));
        }
        let port = u16_from_be_pair(key[1], key[2]);
        proof {
            assert(seq![key@[1], key@[2]] =~= key@.skip(1));
        }
        Ok(CheckpointRecord::InputSchema { port, schema: copy_bytes(value) })
    } else {
        Err(ExecutionError::InternalDatabaseError(StorageError::InvalidRecord))
    }
}

/// The checkpoint a node persisted, decoded from its checkpoint
/// database. Later records shadow earlier ones with the same key, as
/// repeated map insertions would; a database cursor yields each key
/// once, so in practice the keys are distinct.
#[derive(Clone, Debug, PartialEq, Eq)]
pub struct CheckpointMetadata {
    /// Per upstream source, the highest committed sequence number.
    pub commits: Vec<(NodeHandle, u64)>,
    /// Per input port, the serialized schema last absorbed.
    pub input_schemas: Vec<(PortHandle, Vec<u8>)>,
    /// Per output port, the serialized schema last emitted.
    pub output_schemas: Vec<(PortHandle, Vec<u8>)>,
}

/// The mathematical value of a node's checkpoint.
#[verifier::ext_equal]
pub struct CheckpointMetadataModel {
    pub commits: Seq<(Seq<char>, u64)>,
    pub input_schemas: Seq<(u16, Seq<u8>)>,
    pub output_schemas: Seq<(u16, Seq<u8>)>,
}

impl View for CheckpointMetadata {
    type V = CheckpointMetadataModel;

    open spec fn view(&self) -> CheckpointMetadataModel {
        CheckpointMetadataModel {
            commits: self.commits@.map_values(|p: (NodeHandle, u64)| (p.0@, p.1)),
            input_schemas: self.input_schemas@.map_values(|p: (PortHandle, Vec<u8>)| (p.0, p.1@)),
            output_schemas: self.output_schemas@.map_values(|p: (PortHandle, Vec<u8>)| (p.0, p.1@)),
        }
    }
}

/// The committed sequence number recorded for source `h`, later entries
/// shadowing earlier ones.
pub open spec fn lookup_commit(s: Seq<(Seq<char>, u64)>, h: Seq<char>) -> Option<u64>
    decreases s.len(),
{
    if s.len() == 0 {
        None
    } else if s.last().0 == h {
        Some(s.last().1)
    } else {
        lookup_commit(s.drop_last(), h)
    }
}

/// A checkpoint with nothing recorded yet.
pub open spec fn empty_meta() -> CheckpointMetadataModel {
    CheckpointMetadataModel {
        commits: Seq::empty(),
        input_schemas: Seq::empty(),
        output_schemas: Seq::empty(),
    }
}

/// One decoded record appended to the checkpoint under its tag.
pub open spec fn spec_meta_insert(
    acc: CheckpointMetadataModel,
    m: CheckpointRecordModel,
) -> CheckpointMetadataModel {
    match m {
        CheckpointRecordModel::SourceCommit { handle, seq } => CheckpointMetadataModel {
            commits: acc.commits.push((handle, seq)),
            ..acc
        },
        CheckpointRecordModel::OutputSchema { port, schema } => CheckpointMetadataModel {
            output_schemas: acc.output_schemas.push((port, schema)),
            ..acc
        },
        CheckpointRecordModel::InputSchema { port, schema } => CheckpointMetadataModel {
            input_schemas: acc.input_schemas.push((port, schema)),
            ..acc
        },
    }
}

/// Decodes a record dump in cursor order, stopping at the first record
/// that does not decode.
pub open spec fn spec_meta_fold(
    records: Seq<(Seq<u8>, Seq<u8>)>,
    acc: CheckpointMetadataModel,
) -> Result<CheckpointMetadataModel, ExecutionError>
    decreases records.len(),
{
    if records.len() == 0 {
        Ok(acc)
    } else {
        match spec_decode_record(records[0].0, records[0].1) {
            Err(e) => Err(e),
            Ok(m) => spec_meta_fold(records.drop_first(), spec_meta_insert(acc, m)),
        }
    }
}

/// What a node's record dump decodes to: an empty dump is an invalid
/// checkpoint, otherwise the records fold in cursor order.
pub open spec fn spec_node_metadata(records: Seq<(Seq<u8>, Seq<u8>)>) -> Result<
    CheckpointMetadataModel,
    ExecutionError,
> {
    if records.len() == 0 {
        Err(ExecutionError::InternalDatabaseError(StorageError::InvalidRecord))
    } else {
        spec_meta_fold(records, empty_meta())
    }
}

/// The byte strings of a record dump.
pub open spec fn records_view(rs: Seq<(Vec<u8>, Vec<u8>)>) -> Seq<(Seq<u8>, Seq<u8>)> {
    rs.map_values(|p: (Vec<u8>, Vec<u8>)| (p.0@, p.1@))
}

/// Every source-commit key of the dump carries valid UTF-8.
pub open spec fn dump_source_keys_valid(rs: Seq<(Seq<u8>, Seq<u8>)>) -> bool {
    forall|i: int| 0 <= i < rs.len() ==> source_keys_valid_utf8((#[trigger] rs[i]).0)
}

/// Decodes one node's checkpoint database dump, given as key/value
/// pairs in cursor order.
///
/// Fails on an empty dump and on the first record whose tag or shape is
/// invalid; otherwise returns the per-source commits and per-port
/// schemas, exactly as `spec_node_metadata` folds them.
pub fn get_node_checkpoint_metadata(records: &Vec<(Vec<u8>, Vec<u8>)>) -> (r: Result<
    CheckpointMetadata,
    ExecutionError,
>)
    ensures
        r is Ok <==> spec_node_metadata(records_view(records@)) is Ok,
        spec_node_metadata(records_view(records@)) matches Err(e) ==> r == Err::<
            CheckpointMetadata,
            ExecutionError,
        >(e),
        r matches Ok(meta) ==> (dump_source_keys_valid(records_view(records@)) ==> meta@
            == spec_node_metadata(records_view(records@)).unwrap()),
{
    let ghost rv = records_view(records@);
    if records.len() == 0 {
        return Err(ExecutionError::InternalDatabaseError(StorageError::InvalidRecord));
    }
    let mut meta = CheckpointMetadata {
        commits: Vec::new(),
        input_schemas: Vec::new(),
        output_schemas: Vec::new(),
    };
    let ghost mut gm = empty_meta();
    proof {
        assert(meta@.commits =~= gm.commits);
        assert(meta@.input_schemas =~= gm.input_schemas);
        assert(meta@.output_schemas =~= gm.output_schemas);
        assert(meta@ =~= gm);
        assert(rv.skip(0) =~= rv);
    }
    let mut i: usize = 0;
    while i < records.len()
        invariant
            i <= records@.len(),
            rv == records_view(records@),
            rv.len() == records@.len(),
            spec_meta_fold(rv, empty_meta()) == spec_meta_fold(rv.skip(i as int), gm),
            dump_source_keys_valid(rv) ==> meta@ == gm,
        decreases records@.len() - i,
    {
        let pair = &records[i];
        proof {
            assert(rv[i as int] == (pair.0@, pair.1@));
            assert(rv.skip(i as int).len() > 0);
            assert(rv.skip(i as int)[0] == rv[i as int]);
            assert(rv.skip(i as int).drop_first() =~= rv.skip(i as int + 1));
        }
        match decode_record(&pair.0, &pair.1) {
            Err(e) => {
                return Err(e);
            },
            Ok(rec) => {
                proof {
                    let m = spec_decode_record(pair.0@, pair.1@).unwrap();
                    gm = spec_meta_insert(gm, m);
                }
                match rec {
                    CheckpointRecord::SourceCommit { handle, seq: s } => {
                        meta.commits.push((handle, s));
                        proof {
                            if dump_source_keys_valid(rv) {
                                assert(meta@.commits =~= gm.commits);
                                assert(meta@.input_schemas =~= gm.input_schemas);
                                assert(meta@.output_schemas =~= gm.output_schemas);
                            }
                        }
                    },
                    CheckpointRecord::OutputSchema { port, schema } => {
                        meta.output_schemas.push((port, schema));
                        proof {
                            if dump_source_keys_valid(rv) {
                                assert(meta@.commits =~= gm.commits);
                                assert(meta@.input_schemas =~= gm.input_schemas);
                                assert(meta@.output_schemas =~= gm.output_schemas);
                            }
                        }
                    },
                    CheckpointRecord::InputSchema { port, schema } => {
                        meta.input_schemas.push((port, schema));
                        proof {
                            if dump_source_keys_valid(rv) {
                                assert(meta@.commits =~= gm.commits);
                                assert(meta@.input_schemas =~= gm.input_schemas);
                                assert(meta@.output_schemas =~= gm.output_schemas);
                            }
                        }
                    },
                }
            },
        }
        i = i + 1;
    }
    proof {
        assert(rv.skip(records@.len() as int).len() == 0);
    }
    Ok(meta)
}

/// The checkpoint database dumps the embedding program read from disk:
/// one entry per node whose storage environment exists, each a list of
/// key/value pairs in cursor order.
pub type NodeStores = Vec<(NodeHandle, Vec<(Vec<u8>, Vec<u8>)>)>;

/// The record dump stored for node `h`, first entry winning.
pub open spec fn spec_find_store(
    stores: Seq<(NodeHandle, Vec<(Vec<u8>, Vec<u8>)>)>,
    h: Seq<char>,
) -> Option<Seq<(Seq<u8>, Seq<u8>)>>
    decreases stores.len(),
{
    if stores.len() == 0 {
        None
    } else if stores[0].0@ == h {
        Some(records_view(stores[0].1@))
    } else {
        spec_find_store(stores.drop_first(), h)
    }
}

/// A first match at `ix` determines `spec_find_store`.
proof fn lemma_find_store_first(stores: Seq<(NodeHandle, Vec<(Vec<u8>, Vec<u8>)>)>, h: Seq<char>, ix: int)
    requires
        0 <= ix < stores.len(),
        stores[ix].0@ == h,
        forall|j: int| 0 <= j < ix ==> (#[trigger] stores[j]).0@ != h,
    ensures
        spec_find_store(stores, h) == Some(records_view(stores[ix].1@)),
    decreases ix,
{
    if ix > 0 {
        let rest = stores.drop_first();
        assert(rest[ix - 1] == stores[ix]);
        assert forall|j: int| 0 <= j < ix - 1 implies (#[trigger] rest[j]).0@ != h by {
            assert(rest[j] == stores[j + 1]);
        }
        lemma_find_store_first(rest, h, ix - 1);
    }
}

/// No match anywhere determines `spec_find_store`.
proof fn lemma_find_store_none(stores: Seq<(NodeHandle, Vec<(Vec<u8>, Vec<u8>)>)>, h: Seq<char>)
    requires
        forall|j: int| 0 <= j < stores.len() ==> (#[trigger] stores[j]).0@ != h,
    ensures
        spec_find_store(stores, h) is None,
    decreases stores.len(),
{
    if stores.len() > 0 {
        let rest = stores.drop_first();
        assert forall|j: int| 0 <= j < rest.len() implies (#[trigger] rest[j]).0@ != h by {
            assert(rest[j] == stores[j + 1]);
        }
        lemma_find_store_none(rest, h);
    }
}

/// The record dump stored for node `h`, if any.
fn find_store<'s>(stores: &'s NodeStores, h: &NodeHandle) -> (r: Option<
    &'s Vec<(Vec<u8>, Vec<u8>)>,
>)
    ensures
        match r {
            Some(v) => spec_find_store(stores@, h@) == Some(records_view(v@)),
            None => spec_find_store(stores@, h@) is None,
        },
{
    let mut i: usize = 0;
    while i < stores.len()
        invariant
            i <= stores@.len(),
            forall|j: int| 0 <= j < i ==> (#[trigger] stores@[j]).0@ != h@,
        decreases stores@.len() - i,
    {
        if stores[i].0 == *h {
            proof {
                lemma_find_store_first(stores@, h@, i as int);
            }
            return Some(&stores[i].1);
        }
        i = i + 1;
    }
    proof {
        lemma_find_store_none(stores@, h@);
    }
    None
}

/// Every store's source-commit keys carry valid UTF-8.
pub open spec fn all_stores_valid(stores: Seq<(NodeHandle, Vec<(Vec<u8>, Vec<u8>)>)>) -> bool {
    forall|i: int|
        0 <= i < stores.len() ==> dump_source_keys_valid(
            records_view((#[trigger] stores[i]).1@),
        )
}

/// A dump found among valid stores is itself valid.
proof fn lemma_found_store_valid(
    stores: Seq<(NodeHandle, Vec<(Vec<u8>, Vec<u8>)>)>,
    h: Seq<char>,
    rv: Seq<(Seq<u8>, Seq<u8>)>,
)
    requires
        all_stores_valid(stores),
        spec_find_store(stores, h) == Some(rv),
    ensures
        dump_source_keys_valid(rv),
    decreases stores.len(),
{
    if stores.len() > 0 {
        if stores[0].0@ == h {
            assert(dump_source_keys_valid(records_view(stores[0].1@)));
        } else {
            let rest = stores.drop_first();
            assert forall|i: int|
                0 <= i < rest.len() implies dump_source_keys_valid(
                records_view((#[trigger] rest[i]).1@),
            ) by {
                assert(rest[i] == stores[i + 1]);
            }
            lemma_found_store_valid(rest, h, rv);
        }
    }
}

/// Scans the DAG's nodes in order: a node whose dump is present and
/// decodes lands in the metadata list, every other node in the removal
/// list.
pub open spec fn spec_scan_nodes(
    nodes: Seq<crate::dag::Node>,
    stores: Seq<(NodeHandle, Vec<(Vec<u8>, Vec<u8>)>)>,
) -> (Seq<(Seq<char>, CheckpointMetadataModel)>, Seq<Seq<char>>)
    decreases nodes.len(),
{
    if nodes.len() == 0 {
        (Seq::empty(), Seq::empty())
    } else {
        let rest = spec_scan_nodes(nodes.drop_last(), stores);
        let h = nodes.last().handle@;
        match spec_find_store(stores, h) {
            None => (rest.0, rest.1.push(h)),
            Some(rv) => match spec_node_metadata(rv) {
                Ok(m) => (rest.0.push((h, m)), rest.1),
                Err(_) => (rest.0, rest.1.push(h)),
            },
        }
    }
}

/// The mathematical value of a per-node metadata list.
pub open spec fn meta_list_view(s: Seq<(NodeHandle, CheckpointMetadata)>) -> Seq<
    (Seq<char>, CheckpointMetadataModel),
> {
    s.map_values(|p: (NodeHandle, CheckpointMetadata)| (p.0@, p.1@))
}

/// Reads every node's checkpoint: per node, its record dump is looked
/// up and decoded. Nodes with no dump or an undecodable one are
/// returned in the second list so the embedding program can remove
/// their stale environments; the analysis itself never fails.
pub fn get_checkpoint_metadata(dag: &crate::dag::Dag, stores: &NodeStores) -> (r: (
    Vec<(NodeHandle, CheckpointMetadata)>,
    Vec<NodeHandle>,
))
    ensures
        r.1@.map_values(|h: NodeHandle| h@) == spec_scan_nodes(dag.nodes@, stores@).1,
        r.0@.len() == spec_scan_nodes(dag.nodes@, stores@).0.len(),
        forall|k: int|
            0 <= k < r.0@.len() ==> (#[trigger] r.0@[k]).0@ == spec_scan_nodes(
                dag.nodes@,
                stores@,
            ).0[k].0,
        all_stores_valid(stores@) ==> meta_list_view(r.0@) == spec_scan_nodes(
            dag.nodes@,
            stores@,
        ).0,
{
    let mut out: Vec<(NodeHandle, CheckpointMetadata)> = Vec::new();
    let mut removed: Vec<NodeHandle> = Vec::new();
    let mut i: usize = 0;
    proof {
        assert(dag.nodes@.take(0) =~= Seq::<crate::dag::Node>::empty());
        assert(removed@.map_values(|h: NodeHandle| h@) =~= Seq::<Seq<char>>::empty());
        assert(meta_list_view(out@) =~= Seq::<(Seq<char>, CheckpointMetadataModel)>::empty());
    }
    while i < dag.nodes.len()
        invariant
            i <= dag.nodes@.len(),
            removed@.map_values(|h: NodeHandle| h@) == spec_scan_nodes(
                dag.nodes@.take(i as int),
                stores@,
            ).1,
            out@.len() == spec_scan_nodes(dag.nodes@.take(i as int), stores@).0.len(),
            forall|k: int|
                0 <= k < out@.len() ==> (#[trigger] out@[k]).0@ == spec_scan_nodes(
                    dag.nodes@.take(i as int),
                    stores@,
                ).0[k].0,
            all_stores_valid(stores@) ==> meta_list_view(out@) == spec_scan_nodes(
                dag.nodes@.take(i as int),
                stores@,
            ).0,
        decreases dag.nodes@.len() - i,
    {
        let h = &dag.nodes[i].handle;
        let ghost prefix = dag.nodes@.take(i as int);
        proof {
            assert(dag.nodes@.take(i as int + 1).drop_last() =~= prefix);
            assert(dag.nodes@.take(i as int + 1).last() == dag.nodes@[i as int]);
        }
        match find_store(stores, h) {
            None => {
                removed.push(h.clone());
                proof {
                    assert(removed@.map_values(|x: NodeHandle| x@) =~= spec_scan_nodes(
                        dag.nodes@.take(i as int + 1),
                        stores@,
                    ).1);
                }
            },
            Some(records) => {
                match get_node_checkpoint_metadata(records) {
                    Ok(m) => {
                        out.push((h.clone(), m));
                        proof {
                            if all_stores_valid(stores@) {
                                lemma_found_store_valid(stores@, h@, records_view(records@));
                                assert(dump_source_keys_valid(records_view(records@)));
                                assert(meta_list_view(out@) =~= spec_scan_nodes(
                                    dag.nodes@.take(i as int + 1),
                                    stores@,
                                ).0);
                            }
                        }
                    },
                    Err(_) => {
                        removed.push(h.clone());
                        proof {
                            assert(removed@.map_values(|x: NodeHandle| x@) =~= spec_scan_nodes(
                                dag.nodes@.take(i as int + 1),
                                stores@,
                            ).1);
                        }
                    },
                }
            },
        }
        i = i + 1;
    }
    proof {
        assert(dag.nodes@.take(dag.nodes@.len() as int) =~= dag.nodes@);
    }
    (out, removed)
}

/// One node of a source's dependency tree: the node's handle and one
/// subtree per outgoing edge, in edge order. A node reached along
/// several paths appears once per path.
pub struct DependencyTreeNode {
    pub handle: NodeHandle,
    pub children: Vec<DependencyTreeNode>,
}

impl DependencyTreeNode {
    /// A leaf for the given node.
    pub fn new(handle: NodeHandle) -> (r: Self)
        ensures
            r.handle == handle,
            r.children@.len() == 0,
    {
        Self { handle, children: Vec::new() }
    }
}

/// The edges leaving node `h`, in edge order.
pub open spec fn outgoing(edges: Seq<crate::dag::Edge>, h: Seq<char>) -> Seq<crate::dag::Edge> {
    edges.filter(|e: crate::dag::Edge| e.from.node@ == h)
}

/// The tree has one subtree per outgoing edge of each node, in edge
/// order, each rooted at the edge's destination.
pub open spec fn tree_matches(t: DependencyTreeNode, edges: Seq<crate::dag::Edge>) -> bool
    decreases t,
{
    &&& t.children@.len() == outgoing(edges, t.handle@).len()
    &&& forall|i: int|
        0 <= i < t.children@.len() ==> (#[trigger] t.children@[i]).handle@ == outgoing(
            edges,
            t.handle@,
        )[i].to.node@ && tree_matches(t.children@[i], edges)
}

/// The handles of the tree in preorder: the root, then each subtree.
pub open spec fn tree_handles(t: DependencyTreeNode) -> Seq<Seq<char>>
    decreases t,
{
    seq![t.handle@] + forest_handles(t.children@)
}

/// The concatenated preorders of a forest.
pub open spec fn forest_handles(ts: Seq<DependencyTreeNode>) -> Seq<Seq<char>>
    decreases ts,
{
    if ts.len() == 0 {
        Seq::empty()
    } else {
        forest_handles(ts.drop_last()) + tree_handles(ts.last())
    }
}

/// The forward walk from `h` finishes within `fuel` levels: the node
/// itself costs one, and every edge leaving it must finish within the
/// remainder. This holds of every node of an acyclic graph once `fuel`
/// exceeds the longest path length — so `dag.nodes.len() + 1` always
/// suffices there — and of no node on a cycle, for any fuel.
pub open spec fn walk_completes(edges: Seq<crate::dag::Edge>, h: Seq<char>, fuel: nat) -> bool
    decreases fuel,
{
    fuel > 0 && forall|j: int|
        0 <= j < edges.len() && (#[trigger] edges[j]).from.node@ == h ==> walk_completes(
            edges,
            edges[j].to.node@,
            (fuel - 1) as nat,
        )
}

/// Builds the dependency tree rooted at `handle` by forward-walking the
/// edge list. `fuel` bounds the recursion depth: any value above the
/// longest path length suffices, so on an acyclic graph
/// `dag.nodes.len() + 1` always does; on a cyclic graph (where the walk
/// would never end) the fuel runs out and nothing is returned.
pub fn get_source_dependency_tree(handle: NodeHandle, dag: &crate::dag::Dag, fuel: usize) -> (r:
    Option<DependencyTreeNode>)
    ensures
        r matches Some(t) ==> t.handle@ == handle@ && tree_matches(t, dag.edges@),
        r is Some <==> walk_completes(dag.edges@, handle@, fuel as nat),
    decreases fuel,
{
    if fuel == 0 {
        return None;
    }
    let ghost hh = handle@;
    let ghost pred = |e: crate::dag::Edge| e.from.node@ == hh;
    let mut curr = DependencyTreeNode::new(handle);
    let ghost all = dag.edges@;
    proof {
        reveal(Seq::filter);
        assert(all.take(0) =~= Seq::<crate::dag::Edge>::empty());
        assert(all.take(0).filter(pred) =~= Seq::<crate::dag::Edge>::empty());
    }
    let mut i: usize = 0;
    while i < dag.edges.len()
        invariant
            i <= all.len(),
            fuel >= 1,
            all == dag.edges@,
            pred == (|e: crate::dag::Edge| e.from.node@ == hh),
            hh == handle@,
            curr.handle@ == hh,
            forall|j: int|
                0 <= j < i && (#[trigger] all[j]).from.node@ == hh ==> walk_completes(
                    all,
                    all[j].to.node@,
                    (fuel - 1) as nat,
                ),
            curr.children@.len() == all.take(i as int).filter(pred).len(),
            forall|j: int|
                0 <= j < curr.children@.len() ==> (#[trigger] curr.children@[j]).handle@
                    == all.take(i as int).filter(pred)[j].to.node@ && tree_matches(
                    curr.children@[j],
                    all,
                ),
        decreases all.len() - i,
    {
        let edge = &dag.edges[i];
        proof {
            reveal(Seq::filter);
            assert(all.take(i as int + 1).drop_last() =~= all.take(i as int));
            assert(all.take(i as int + 1).last() == all[i as int]);
            assert(all.take(i as int + 1).filter(pred) == if pred(all[i as int]) {
                all.take(i as int).filter(pred).push(all[i as int])
            } else {
                all.take(i as int).filter(pred)
            });
        }
        if edge.from.node == curr.handle {
            match get_source_dependency_tree(edge.to.node.clone(), dag, fuel - 1) {
                None => {
                    proof {
                        assert(!walk_completes(all, all[i as int].to.node@, (fuel - 1) as nat));
                        assert(!walk_completes(all, hh, fuel as nat));
                    }
                    return None;
                },
                Some(child) => {
                    curr.children.push(child);
                },
            }
        }
        i = i + 1;
    }
    proof {
        assert(all.take(all.len() as int) =~= all);
        assert(pred =~= (|e: crate::dag::Edge| e.from.node@ == curr.handle@));
        assert(outgoing(all, curr.handle@) == all.filter(pred));
        assert(walk_completes(all, hh, fuel as nat));
    }
    Some(curr)
}

/// The checkpoint of node `h` in the metadata list, later entries
/// shadowing earlier ones.
pub open spec fn lookup_meta(
    s: Seq<(Seq<char>, CheckpointMetadataModel)>,
    h: Seq<char>,
) -> Option<CheckpointMetadataModel>
    decreases s.len(),
{
    if s.len() == 0 {
        None
    } else if s.last().0 == h {
        Some(s.last().1)
    } else {
        lookup_meta(s.drop_last(), h)
    }
}

/// The sequence number node `h` has committed for source `src`; a node
/// or source with nothing recorded counts as 0.
pub open spec fn spec_seq_of(
    meta: Seq<(Seq<char>, CheckpointMetadataModel)>,
    src: Seq<char>,
    h: Seq<char>,
) -> u64 {
    match lookup_meta(meta, h) {
        None => 0,
        Some(m) => match lookup_commit(m.commits, src) {
            None => 0,
            Some(s) => s,
        },
    }
}

/// A match at `k` with nothing after it determines `lookup_meta`.
proof fn lemma_lookup_meta_found(s: Seq<(Seq<char>, CheckpointMetadataModel)>, h: Seq<char>, k: int)
    requires
        0 <= k < s.len(),
        s[k].0 == h,
        forall|j: int| k < j < s.len() ==> (#[trigger] s[j]).0 != h,
    ensures
        lookup_meta(s, h) == Some(s[k].1),
    decreases s.len(),
{
    if k < s.len() - 1 {
        lemma_lookup_meta_found(s.drop_last(), h, k);
    }
}

/// No match anywhere determines `lookup_meta`.
proof fn lemma_lookup_meta_none(s: Seq<(Seq<char>, CheckpointMetadataModel)>, h: Seq<char>)
    requires
        forall|j: int| 0 <= j < s.len() ==> (#[trigger] s[j]).0 != h,
    ensures
        lookup_meta(s, h) is None,
    decreases s.len(),
{
    if s.len() > 0 {
        lemma_lookup_meta_none(s.drop_last(), h);
    }
}

/// A match at `k` with nothing after it determines `lookup_commit`.
proof fn lemma_lookup_commit_found(s: Seq<(Seq<char>, u64)>, h: Seq<char>, k: int)
    requires
        0 <= k < s.len(),
        s[k].0 == h,
        forall|j: int| k < j < s.len() ==> (#[trigger] s[j]).0 != h,
    ensures
        lookup_commit(s, h) == Some(s[k].1),
    decreases s.len(),
{
    if k < s.len() - 1 {
        lemma_lookup_commit_found(s.drop_last(), h, k);
    }
}

/// No match anywhere determines `lookup_commit`.
proof fn lemma_lookup_commit_none(s: Seq<(Seq<char>, u64)>, h: Seq<char>)
    requires
        forall|j: int| 0 <= j < s.len() ==> (#[trigger] s[j]).0 != h,
    ensures
        lookup_commit(s, h) is None,
    decreases s.len(),
{
    if s.len() > 0 {
        lemma_lookup_commit_none(s.drop_last(), h);
    }
}

/// The checkpoint recorded for node `h`, if any.
fn find_meta<'m>(metadata: &'m Vec<(NodeHandle, CheckpointMetadata)>, h: &NodeHandle) -> (r:
    Option<&'m CheckpointMetadata>)
    ensures
        match r {
            Some(m) => lookup_meta(meta_list_view(metadata@), h@) == Some(m@),
            None => lookup_meta(meta_list_view(metadata@), h@) is None,
        },
{
    let ghost mv = meta_list_view(metadata@);
    let mut k: usize = metadata.len();
    while k > 0
        invariant
            k <= metadata@.len(),
            mv == meta_list_view(metadata@),
            forall|j: int| k <= j < mv.len() ==> (#[trigger] mv[j]).0 != h@,
        decreases k,
    {
        k = k - 1;
        if metadata[k].0 == *h {
            proof {
                assert(mv[k as int].0 == h@);
                lemma_lookup_meta_found(mv, h@, k as int);
            }
            return Some(&metadata[k].1);
        }
        proof {
            assert(mv[k as int].0 != h@);
        }
    }
    proof {
        lemma_lookup_meta_none(mv, h@);
    }
    None
}

/// The commit recorded for source `src`, if any.
fn find_commit(commits: &Vec<(NodeHandle, u64)>, src: &NodeHandle) -> (r: Option<u64>)
    ensures
        r == lookup_commit(
            commits@.map_values(|p: (NodeHandle, u64)| (p.0@, p.1)),
            src@,
        ),
{
    let ghost cv = commits@.map_values(|p: (NodeHandle, u64)| (p.0@, p.1));
    let mut k: usize = commits.len();
    while k > 0
        invariant
            k <= commits@.len(),
            cv == commits@.map_values(|p: (NodeHandle, u64)| (p.0@, p.1)),
            forall|j: int| k <= j < cv.len() ==> (#[trigger] cv[j]).0 != src@,
        decreases k,
    {
        k = k - 1;
        if commits[k].0 == *src {
            proof {
                assert(cv[k as int].0 == src@);
                lemma_lookup_commit_found(cv, src@, k as int);
            }
            return Some(commits[k].1);
        }
        proof {
            assert(cv[k as int].0 != src@);
        }
    }
    proof {
        lemma_lookup_commit_none(cv, src@);
    }
    None
}

/// The sequence number node `h` committed for source `src`, 0 when
/// nothing is recorded.
fn get_seq_for(
    metadata: &Vec<(NodeHandle, CheckpointMetadata)>,
    src: &NodeHandle,
    h: &NodeHandle,
) -> (r: u64)
    ensures
        r == spec_seq_of(meta_list_view(metadata@), src@, h@),
{
    match find_meta(metadata, h) {
        None => 0,
        Some(m) => match find_commit(&m.commits, src) {
            None => 0,
            Some(s) => s,
        },
    }
}

/// Nodes grouped by committed sequence number.
pub open spec fn groups_model(s: Seq<(u64, Vec<NodeHandle>)>) -> Seq<(u64, Seq<Seq<char>>)> {
    s.map_values(|p: (u64, Vec<NodeHandle>)| (p.0, p.1@.map_values(|h: NodeHandle| h@)))
}

/// Files `h` under sequence number `q`: the first group keyed `q` takes
/// it, a missing key opens a new group at the end.
pub open spec fn spec_groups_add(
    groups: Seq<(u64, Seq<Seq<char>>)>,
    q: u64,
    h: Seq<char>,
) -> Seq<(u64, Seq<Seq<char>>)>
    decreases groups.len(),
{
    if groups.len() == 0 {
        seq![(q, seq![h])]
    } else if groups.first().0 == q {
        seq![(q, groups.first().1.push(h))] + groups.drop_first()
    } else {
        seq![groups.first()] + spec_groups_add(groups.drop_first(), q, h)
    }
}

/// A first key match at `k` makes `spec_groups_add` a point update.
proof fn lemma_groups_add_found(groups: Seq<(u64, Seq<Seq<char>>)>, q: u64, h: Seq<char>, k: int)
    requires
        0 <= k < groups.len(),
        groups[k].0 == q,
        forall|j: int| 0 <= j < k ==> (#[trigger] groups[j]).0 != q,
    ensures
        spec_groups_add(groups, q, h) =~= groups.update(k, (q, groups[k].1.push(h))),
    decreases k,
{
    if k == 0 {
        assert(spec_groups_add(groups, q, h) =~= groups.update(0, (q, groups[0].1.push(h))));
    } else {
        let rest = groups.drop_first();
        assert(rest[k - 1] == groups[k]);
        assert forall|j: int| 0 <= j < k - 1 implies (#[trigger] rest[j]).0 != q by {
            assert(rest[j] == groups[j + 1]);
        }
        lemma_groups_add_found(rest, q, h, k - 1);
        assert(spec_groups_add(groups, q, h) =~= groups.update(k, (q, groups[k].1.push(h))));
    }
}

/// No key match makes `spec_groups_add` append a new group.
proof fn lemma_groups_add_missing(groups: Seq<(u64, Seq<Seq<char>>)>, q: u64, h: Seq<char>)
    requires
        forall|j: int| 0 <= j < groups.len() ==> (#[trigger] groups[j]).0 != q,
    ensures
        spec_groups_add(groups, q, h) =~= groups.push((q, seq![h])),
    decreases groups.len(),
{
    if groups.len() > 0 {
        let rest = groups.drop_first();
        assert forall|j: int| 0 <= j < rest.len() implies (#[trigger] rest[j]).0 != q by {
            assert(rest[j] == groups[j + 1]);
        }
        lemma_groups_add_missing(rest, q, h);
    }
}

/// Files each handle in turn under its sequence number.
pub open spec fn spec_add_handles(
    groups: Seq<(u64, Seq<Seq<char>>)>,
    meta: Seq<(Seq<char>, CheckpointMetadataModel)>,
    src: Seq<char>,
    handles: Seq<Seq<char>>,
) -> Seq<(u64, Seq<Seq<char>>)>
    decreases handles.len(),
{
    if handles.len() == 0 {
        groups
    } else {
        spec_add_handles(
            spec_groups_add(groups, spec_seq_of(meta, src, handles.first()), handles.first()),
            meta,
            src,
            handles.drop_first(),
        )
    }
}

/// Filing handles distributes over concatenation.
proof fn lemma_add_handles_concat(
    groups: Seq<(u64, Seq<Seq<char>>)>,
    meta: Seq<(Seq<char>, CheckpointMetadataModel)>,
    src: Seq<char>,
    h1: Seq<Seq<char>>,
    h2: Seq<Seq<char>>,
)
    ensures
        spec_add_handles(groups, meta, src, h1 + h2) == spec_add_handles(
            spec_add_handles(groups, meta, src, h1),
            meta,
            src,
            h2,
        ),
    decreases h1.len(),
{
    if h1.len() == 0 {
        assert(h1 + h2 =~= h2);
    } else {
        let g2 = spec_groups_add(groups, spec_seq_of(meta, src, h1.first()), h1.first());
        assert((h1 + h2).first() == h1.first());
        assert((h1 + h2).drop_first() =~= h1.drop_first() + h2);
        lemma_add_handles_concat(g2, meta, src, h1.drop_first(), h2);
    }
}

/// Filing a last handle is one `spec_groups_add` step.
proof fn lemma_add_handles_push(
    groups: Seq<(u64, Seq<Seq<char>>)>,
    meta: Seq<(Seq<char>, CheckpointMetadataModel)>,
    src: Seq<char>,
    handles: Seq<Seq<char>>,
    h: Seq<char>,
)
    ensures
        spec_add_handles(groups, meta, src, handles.push(h)) == spec_groups_add(
            spec_add_handles(groups, meta, src, handles),
            spec_seq_of(meta, src, h),
            h,
        ),
{
    lemma_add_handles_concat(groups, meta, src, handles, seq![h]);
    assert(handles + seq![h] =~= handles.push(h));
    let g = spec_add_handles(groups, meta, src, handles);
    let g2 = spec_groups_add(g, spec_seq_of(meta, src, h), h);
    assert(seq![h].first() == h);
    assert(seq![h].drop_first() =~= Seq::<Seq<char>>::empty());
    assert(spec_add_handles(g2, meta, src, seq![h].drop_first()) == g2);
    assert(spec_add_handles(g, meta, src, seq![h]) == g2);
}

/// The groups are exactly the partition of `handles` by sequence
/// number: each group holds, in encounter order, every handle that maps
/// to its key; keys are distinct; no group is empty; and every handle's
/// number appears as a key.
pub open spec fn groups_exact(
    groups: Seq<(u64, Seq<Seq<char>>)>,
    meta: Seq<(Seq<char>, CheckpointMetadataModel)>,
    src: Seq<char>,
    handles: Seq<Seq<char>>,
) -> bool {
    &&& forall|a: int|
        0 <= a < groups.len() ==> (#[trigger] groups[a]).1 == handles.filter(
            |h: Seq<char>| spec_seq_of(meta, src, h) == groups[a].0,
        )
    &&& forall|a: int, b: int|
        0 <= a < b < groups.len() ==> (#[trigger] groups[a]).0 != (#[trigger] groups[b]).0
    &&& forall|a: int| 0 <= a < groups.len() ==> (#[trigger] groups[a]).1.len() > 0
    &&& forall|k: int|
        0 <= k < handles.len() ==> exists|a: int|
            0 <= a < groups.len() && (#[trigger] groups[a]).0 == spec_seq_of(
                meta,
                src,
                #[trigger] handles[k],
            )
}

/// Filing one more handle preserves partition exactness.
proof fn lemma_groups_exact_step(
    groups: Seq<(u64, Seq<Seq<char>>)>,
    meta: Seq<(Seq<char>, CheckpointMetadataModel)>,
    src: Seq<char>,
    handles: Seq<Seq<char>>,
    h: Seq<char>,
)
    requires
        groups_exact(groups, meta, src, handles),
    ensures
        groups_exact(
            spec_groups_add(groups, spec_seq_of(meta, src, h), h),
            meta,
            src,
            handles.push(h),
        ),
{
    reveal(Seq::filter);
    let q = spec_seq_of(meta, src, h);
    let grown = handles.push(h);
    assert(grown.drop_last() =~= handles);
    assert(grown.last() == h);
    assert forall|p: spec_fn(Seq<char>) -> bool| true implies #[trigger] grown.filter(p) == if p(h) {
        handles.filter(p).push(h)
    } else {
        handles.filter(p)
    } by {
    }
    if exists|a: int| 0 <= a < groups.len() && (#[trigger] groups[a]).0 == q {
        let a0 = choose|a: int| 0 <= a < groups.len() && (#[trigger] groups[a]).0 == q;
        assert forall|j: int| 0 <= j < a0 implies (#[trigger] groups[j]).0 != q by {}
        lemma_groups_add_found(groups, q, h, a0);
        let out = groups.update(a0, (q, groups[a0].1.push(h)));
        assert forall|a: int| 0 <= a < out.len() implies (#[trigger] out[a]).1 == grown.filter(
            |x: Seq<char>| spec_seq_of(meta, src, x) == out[a].0,
        ) by {
            let p = |x: Seq<char>| spec_seq_of(meta, src, x) == out[a].0;
            if a == a0 {
                assert(p(h));
                assert(out[a].1 == handles.filter(p).push(h));
            } else {
                assert(out[a] == groups[a]);
                assert(out[a].0 != q);
                assert(!p(h));
            }
        }
        assert forall|k: int| 0 <= k < grown.len() implies exists|a: int|
            0 <= a < out.len() && (#[trigger] out[a]).0 == spec_seq_of(
                meta,
                src,
                #[trigger] grown[k],
            ) by {
            if k < handles.len() {
                assert(grown[k] == handles[k]);
                let a1 = choose|a: int|
                    0 <= a < groups.len() && (#[trigger] groups[a]).0 == spec_seq_of(
                        meta,
                        src,
                        handles[k],
                    );
                assert(out[a1].0 == groups[a1].0);
            } else {
                assert(grown[k] == h);
                assert(out[a0].0 == q);
            }
        }
    } else {
        lemma_groups_add_missing(groups, q, h);
        let out = groups.push((q, seq![h]));
        assert forall|a: int| 0 <= a < out.len() implies (#[trigger] out[a]).1 == grown.filter(
            |x: Seq<char>| spec_seq_of(meta, src, x) == out[a].0,
        ) by {
            let p = |x: Seq<char>| spec_seq_of(meta, src, x) == out[a].0;
            if a < groups.len() {
                assert(out[a] == groups[a]);
                assert(out[a].0 != q);
                assert(!p(h));
            } else {
                assert(out[a].0 == q);
                assert(p(h));
                assert(forall|k: int|
                    0 <= k < handles.len() ==> spec_seq_of(meta, src, #[trigger] handles[k]) != q);
                lemma_all_mismatch_filter_empty(handles, meta, src, q);
                assert(out[a].1 =~= handles.filter(p).push(h));
            }
        }
        assert forall|k: int| 0 <= k < grown.len() implies exists|a: int|
            0 <= a < out.len() && (#[trigger] out[a]).0 == spec_seq_of(
                meta,
                src,
                #[trigger] grown[k],
            ) by {
            if k < handles.len() {
                assert(grown[k] == handles[k]);
                let a1 = choose|a: int|
                    0 <= a < groups.len() && (#[trigger] groups[a]).0 == spec_seq_of(
                        meta,
                        src,
                        handles[k],
                    );
                assert(out[a1].0 == groups[a1].0);
            } else {
                assert(grown[k] == h);
                assert(out[groups.len() as int].0 == q);
            }
        }
    }
}

/// Handles that all miss a key filter to nothing under it.
proof fn lemma_all_mismatch_filter_empty(
    handles: Seq<Seq<char>>,
    meta: Seq<(Seq<char>, CheckpointMetadataModel)>,
    src: Seq<char>,
    q: u64,
)
    requires
        forall|k: int| 0 <= k < handles.len() ==> spec_seq_of(meta, src, #[trigger] handles[k]) != q,
    ensures
        handles.filter(|x: Seq<char>| spec_seq_of(meta, src, x) == q) == Seq::<Seq<char>>::empty(),
    decreases handles.len(),
{
    reveal(Seq::filter);
    if handles.len() > 0 {
        lemma_all_mismatch_filter_empty(handles.drop_last(), meta, src, q);
    }
}

/// Filing every handle from an empty table yields the exact partition.
pub proof fn lemma_groups_exact(
    meta: Seq<(Seq<char>, CheckpointMetadataModel)>,
    src: Seq<char>,
    handles: Seq<Seq<char>>,
)
    ensures
        groups_exact(
            spec_add_handles(Seq::empty(), meta, src, handles),
            meta,
            src,
            handles,
        ),
    decreases handles.len(),
{
    reveal(Seq::filter);
    if handles.len() == 0 {
    } else {
        let prefix = handles.drop_last();
        let h = handles.last();
        lemma_groups_exact(meta, src, prefix);
        lemma_add_handles_push(Seq::empty(), meta, src, prefix, h);
        assert(prefix.push(h) =~= handles);
        lemma_groups_exact_step(
            spec_add_handles(Seq::empty(), meta, src, prefix),
            meta,
            src,
            prefix,
            h,
        );
    }
}

/// Law: the nodes of a dependency tree are fully consistent for a
/// source exactly when filing them yields a single group, which happens
/// exactly when they all record the same committed sequence number.
pub proof fn lemma_fully_consistent_iff(
    meta: Seq<(Seq<char>, CheckpointMetadataModel)>,
    src: Seq<char>,
    handles: Seq<Seq<char>>,
)
    requires
        handles.len() > 0,
    ensures
        spec_add_handles(Seq::empty(), meta, src, handles).len() == 1 <==> (forall|k: int|
            0 <= k < handles.len() ==> spec_seq_of(meta, src, #[trigger] handles[k]) == spec_seq_of(
                meta,
                src,
                handles[0],
            )),
{
    lemma_groups_exact(meta, src, handles);
    let groups = spec_add_handles(Seq::empty(), meta, src, handles);
    if groups.len() == 1 {
        assert forall|k: int| 0 <= k < handles.len() implies spec_seq_of(
            meta,
            src,
            #[trigger] handles[k],
        ) == spec_seq_of(meta, src, handles[0]) by {
            let a1 = choose|a: int|
                0 <= a < groups.len() && (#[trigger] groups[a]).0 == spec_seq_of(
                    meta,
                    src,
                    handles[k],
                );
            let a2 = choose|a: int|
                0 <= a < groups.len() && (#[trigger] groups[a]).0 == spec_seq_of(
                    meta,
                    src,
                    handles[0],
                );
            assert(a1 == 0 && a2 == 0);
        }
    } else {
        if forall|k: int|
            0 <= k < handles.len() ==> spec_seq_of(meta, src, #[trigger] handles[k]) == spec_seq_of(
                meta,
                src,
                handles[0],
            ) {
            let q0 = spec_seq_of(meta, src, handles[0]);
            assert(exists|a: int|
                0 <= a < groups.len() && (#[trigger] groups[a]).0 == spec_seq_of(
                    meta,
                    src,
                    handles[0],
                ));
            assert(groups.len() >= 1);
            if groups.len() >= 2 {
                assert(groups[0].1.len() > 0);
                assert(groups[1].1.len() > 0);
                let p0 = |x: Seq<char>| spec_seq_of(meta, src, x) == groups[0].0;
                let p1 = |x: Seq<char>| spec_seq_of(meta, src, x) == groups[1].0;
                assert(groups[0].1 == handles.filter(p0));
                assert(groups[1].1 == handles.filter(p1));
                lemma_filter_member_val(handles, meta, src, groups[0].0);
                lemma_filter_member_val(handles, meta, src, groups[1].0);
            }
        }
    }
}

/// A nonempty filtered group's key is the number of one of the handles.
proof fn lemma_filter_member_val(
    handles: Seq<Seq<char>>,
    meta: Seq<(Seq<char>, CheckpointMetadataModel)>,
    src: Seq<char>,
    q: u64,
)
    requires
        handles.filter(|x: Seq<char>| spec_seq_of(meta, src, x) == q).len() > 0,
    ensures
        exists|k: int| 0 <= k < handles.len() && spec_seq_of(meta, src, #[trigger] handles[k]) == q,
    decreases handles.len(),
{
    reveal(Seq::filter);
    if handles.len() > 0 {
        if spec_seq_of(meta, src, handles.last()) == q {
            assert(handles[handles.len() - 1] == handles.last());
        } else {
            lemma_filter_member_val(handles.drop_last(), meta, src, q);
            let k = choose|k: int|
                0 <= k < handles.drop_last().len() && spec_seq_of(
                    meta,
                    src,
                    #[trigger] handles.drop_last()[k],
                ) == q;
            assert(handles[k] == handles.drop_last()[k]);
        }
    }
}

/// Filing one handle is one `spec_groups_add` step.
proof fn lemma_add_single(
    groups: Seq<(u64, Seq<Seq<char>>)>,
    meta: Seq<(Seq<char>, CheckpointMetadataModel)>,
    src: Seq<char>,
    h: Seq<char>,
)
    ensures
        spec_add_handles(groups, meta, src, seq![h]) == spec_groups_add(
            groups,
            spec_seq_of(meta, src, h),
            h,
        ),
{
    let g2 = spec_groups_add(groups, spec_seq_of(meta, src, h), h);
    assert(seq![h].first() == h);
    assert(seq![h].drop_first() =~= Seq::<Seq<char>>::empty());
    assert(spec_add_handles(g2, meta, src, seq![h].drop_first()) == g2);
}

/// Files `h` under sequence number `q`: the first group keyed `q` takes
/// it, a missing key opens a new group at the end.
fn groups_add(res: &mut Vec<(u64, Vec<NodeHandle>)>, q: u64, h: NodeHandle)
    ensures
        groups_model(final(res)@) == spec_groups_add(groups_model(old(res)@), q, h@),
{
    let ghost gm = groups_model(res@);
    let mut k: usize = 0;
    while k < res.len()
        invariant
            k <= res@.len(),
            gm == groups_model(res@),
            gm == groups_model(old(res)@),
            gm.len() == res@.len(),
            forall|j: int| 0 <= j < k ==> (#[trigger] gm[j]).0 != q,
        decreases res@.len() - k,
    {
        if res[k].0 == q {
            proof {
                assert(gm[k as int].0 == res@[k as int].0);
                lemma_groups_add_found(gm, q, h@, k as int);
            }
            let ghost pre = res@;
            let ghost hv = h@;
            let entry = res.remove(k);
            proof {
                assert(entry == pre[k as int]);
            }
            let key = entry.0;
            let mut members = entry.1;
            proof {
                assert(members@ == pre[k as int].1@);
            }
            members.push(h);
            res.insert(k, (key, members));
            proof {
                assert(res@.len() == pre.len());
                assert forall|j: int| 0 <= j < pre.len() && j != k implies res@[j] == pre[j] by {
                    if j < k {
                        assert(res@[j] == pre.remove(k as int)[j]);
                    } else {
                        assert(res@[j] == pre.remove(k as int)[j - 1]);
                        assert(pre.remove(k as int)[j - 1] == pre[j]);
                    }
                }
                assert(res@[k as int].0 == pre[k as int].0);
                assert(res@[k as int].1@.map_values(|x: NodeHandle| x@) =~= gm[k as int].1.push(
                    hv,
                ));
                assert(groups_model(res@) =~= gm.update(k as int, (q, gm[k as int].1.push(hv))));
            }
            return ;
        }
        proof {
            assert(gm[k as int].0 == res@[k as int].0);
        }
        k = k + 1;
    }
    proof {
        lemma_groups_add_missing(gm, q, h@);
    }
    let ghost hv = h@;
    let mut members: Vec<NodeHandle> = Vec::new();
    members.push(h);
    res.push((q, members));
    proof {
        assert(res@.last().1@.map_values(|x: NodeHandle| x@) =~= seq![hv]);
        assert(groups_model(res@) =~= gm.push((q, seq![hv])));
    }
}

/// Walks the tree in preorder, filing every node's committed sequence
/// number for the source into `res`.
fn get_dependency_tree_consistency_rec(
    metadata: &Vec<(NodeHandle, CheckpointMetadata)>,
    source_handle: &NodeHandle,
    tree_node: &DependencyTreeNode,
    res: &mut Vec<(u64, Vec<NodeHandle>)>,
)
    ensures
        groups_model(final(res)@) == spec_add_handles(
            groups_model(old(res)@),
            meta_list_view(metadata@),
            source_handle@,
            tree_handles(*tree_node),
        ),
    decreases *tree_node,
{
    let ghost meta = meta_list_view(metadata@);
    let ghost src = source_handle@;
    let ghost g0 = groups_model(res@);
    let q = get_seq_for(metadata, source_handle, &tree_node.handle);
    groups_add(res, q, tree_node.handle.clone());
    let ghost g1 = groups_model(res@);
    proof {
        lemma_add_single(g0, meta, src, tree_node.handle@);
        assert(g1 == spec_add_handles(g0, meta, src, seq![tree_node.handle@]));
    }
    let mut k: usize = 0;
    while k < tree_node.children.len()
        invariant
            k <= tree_node.children@.len(),
            meta == meta_list_view(metadata@),
            src == source_handle@,
            groups_model(res@) == spec_add_handles(
                g1,
                meta,
                src,
                forest_handles(tree_node.children@.take(k as int)),
            ),
        decreases tree_node.children@.len() - k,
    {
        let ghost before = groups_model(res@);
        let ghost prefix = forest_handles(tree_node.children@.take(k as int));
        get_dependency_tree_consistency_rec(metadata, source_handle, &tree_node.children[k], res);
        proof {
            let grown = tree_node.children@.take(k as int + 1);
            assert(grown.drop_last() =~= tree_node.children@.take(k as int));
            assert(grown.last() == tree_node.children@[k as int]);
            assert(forest_handles(grown) == prefix + tree_handles(tree_node.children@[k as int]));
            lemma_add_handles_concat(
                g1,
                meta,
                src,
                prefix,
                tree_handles(tree_node.children@[k as int]),
            );
        }
        k = k + 1;
    }
    proof {
        assert(tree_node.children@.take(tree_node.children@.len() as int)
            =~= tree_node.children@);
        assert(tree_handles(*tree_node) == seq![tree_node.handle@] + forest_handles(
            tree_node.children@,
        ));
        lemma_add_handles_concat(
            g0,
            meta,
            src,
            seq![tree_node.handle@],
            forest_handles(tree_node.children@),
        );
    }
}

/// Per source, whether every descendant of the source has committed
/// the same sequence number for it.
#[derive(Debug, PartialEq, Eq)]
pub enum Consistency {
    /// Every descendant of the source records this sequence number.
    FullyConsistent(u64),
    /// The descendants grouped by the sequence number they record.
    PartiallyConsistent(Vec<(u64, Vec<NodeHandle>)>),
}

/// The source nodes of the DAG, in node order.
pub open spec fn sources_of(nodes: Seq<crate::dag::Node>) -> Seq<crate::dag::Node> {
    nodes.filter(|n: crate::dag::Node| n.t is Source)
}

/// Reads every node's persisted checkpoint and builds, per source, the
/// dependency tree along which its data flows.
pub struct CheckpointMetadataReader<'a> {
    pub dag: &'a crate::dag::Dag,
    pub metadata: Vec<(NodeHandle, CheckpointMetadata)>,
    pub deps_trees: Vec<(NodeHandle, DependencyTreeNode)>,
    pub removed: Vec<NodeHandle>,
}

impl<'a> CheckpointMetadataReader<'a> {
    /// Decodes all checkpoints and builds one dependency tree per
    /// source. Nodes whose checkpoint is missing or undecodable land in
    /// `removed`. Fails only when a dependency walk exceeds the node
    /// count, which cannot happen on an acyclic graph.
    pub fn new(dag: &'a crate::dag::Dag, stores: &NodeStores) -> (r: Result<
        CheckpointMetadataReader<'a>,
        ExecutionError,
    >)
        requires
            dag.nodes@.len() < usize::MAX,
        ensures
            r matches Ok(rd) ==> {
                &&& rd.dag == dag
                &&& rd.removed@.map_values(|h: NodeHandle| h@) == spec_scan_nodes(
                    dag.nodes@,
                    stores@,
                ).1
                &&& (all_stores_valid(stores@) ==> meta_list_view(rd.metadata@)
                    == spec_scan_nodes(dag.nodes@, stores@).0)
                &&& rd.deps_trees@.len() == sources_of(dag.nodes@).len()
                &&& forall|k: int|
                    0 <= k < rd.deps_trees@.len() ==> {
                        let entry = #[trigger] rd.deps_trees@[k];
                        &&& entry.0@ == sources_of(dag.nodes@)[k].handle@
                        &&& entry.1.handle@ == entry.0@
                        &&& tree_matches(entry.1, dag.edges@)
                    }
            },
            r is Ok <==> (forall|n: int|
                0 <= n < dag.nodes@.len() && (#[trigger] dag.nodes@[n]).t is Source
                    ==> walk_completes(
                    dag.edges@,
                    dag.nodes@[n].handle@,
                    (dag.nodes@.len() + 1) as nat,
                )),
            r matches Err(e) ==> (e matches ExecutionError::InvalidCheckpointState(h) && exists|
                n: int,
            |
                0 <= n < dag.nodes@.len() && (#[trigger] dag.nodes@[n]).t is Source
                    && dag.nodes@[n].handle@ == h@ && !walk_completes(
                    dag.edges@,
                    dag.nodes@[n].handle@,
                    (dag.nodes@.len() + 1) as nat,
                )),
    {
        let scan = get_checkpoint_metadata(dag, stores);
        let metadata = scan.0;
        let removed = scan.1;
        let fuel = dag.nodes.len() + 1;
        let mut deps_trees: Vec<(NodeHandle, DependencyTreeNode)> = Vec::new();
        let ghost pred = |n: crate::dag::Node| n.t is Source;
        proof {
            reveal(Seq::filter);
            assert(dag.nodes@.take(0) =~= Seq::<crate::dag::Node>::empty());
            assert(dag.nodes@.take(0).filter(pred) =~= Seq::<crate::dag::Node>::empty());
        }
        let mut i: usize = 0;
        while i < dag.nodes.len()
            invariant
                i <= dag.nodes@.len(),
                fuel == dag.nodes@.len() + 1,
                pred == (|n: crate::dag::Node| n.t is Source),
                forall|j: int|
                    0 <= j < i && (#[trigger] dag.nodes@[j]).t is Source ==> walk_completes(
                        dag.edges@,
                        dag.nodes@[j].handle@,
                        (dag.nodes@.len() + 1) as nat,
                    ),
                deps_trees@.len() == dag.nodes@.take(i as int).filter(pred).len(),
                forall|k: int|
                    0 <= k < deps_trees@.len() ==> {
                        let entry = #[trigger] deps_trees@[k];
                        &&& entry.0@ == dag.nodes@.take(i as int).filter(pred)[k].handle@
                        &&& entry.1.handle@ == entry.0@
                        &&& tree_matches(entry.1, dag.edges@)
                    },
            decreases dag.nodes@.len() - i,
        {
            let node = &dag.nodes[i];
            proof {
                reveal(Seq::filter);
                assert(dag.nodes@.take(i as int + 1).drop_last() =~= dag.nodes@.take(i as int));
                assert(dag.nodes@.take(i as int + 1).last() == dag.nodes@[i as int]);
                assert(dag.nodes@.take(i as int + 1).filter(pred) == if pred(dag.nodes@[i as int]) {
                    dag.nodes@.take(i as int).filter(pred).push(dag.nodes@[i as int])
                } else {
                    dag.nodes@.take(i as int).filter(pred)
                });
            }
            if matches!(node.t, crate::dag::NodeType::Source(_)) {
                match get_source_dependency_tree(node.handle.clone(), dag, fuel) {
                    None => {
                        proof {
                            assert(dag.nodes@[i as int].t is Source && !walk_completes(
                                dag.edges@,
                                dag.nodes@[i as int].handle@,
                                (dag.nodes@.len() + 1) as nat,
                            ));
                        }
                        return Err(ExecutionError::InvalidCheckpointState(node.handle.clone()));
                    },
                    Some(root) => {
                        deps_trees.push((node.handle.clone(), root));
                    },
                }
            }
            i = i + 1;
        }
        proof {
            assert(dag.nodes@.take(dag.nodes@.len() as int) =~= dag.nodes@);
            assert(pred =~= (|n: crate::dag::Node| n.t is Source));
        }
        Ok(CheckpointMetadataReader { dag, metadata, deps_trees, removed })
    }

    /// The sequence number node `curr` has durably committed for source
    /// `src`; an error when the node has no checkpoint or no commit for
    /// that source.
    pub fn get_state_seq_for_node(&self, src: &NodeHandle, curr: &NodeHandle) -> (r: Result<
        u64,
        ExecutionError,
    >)
        ensures
            match lookup_meta(meta_list_view(self.metadata@), curr@) {
                None => r matches Err(e) && (e matches ExecutionError::InvalidCheckpointState(h)
                    && h@ == curr@),
                Some(m) => match lookup_commit(m.commits, src@) {
                    None => r matches Err(e) && (e
                        matches ExecutionError::InvalidCheckpointState(h) && h@ == curr@),
                    Some(s) => r == Ok::<u64, ExecutionError>(s),
                },
            },
    {
        match find_meta(&self.metadata, curr) {
            None => Err(ExecutionError::InvalidCheckpointState(curr.clone())),
            Some(m) => match find_commit(&m.commits, src) {
                None => Err(ExecutionError::InvalidCheckpointState(curr.clone())),
                Some(s) => Ok(s),
            },
        }
    }

    /// Classifies each source: fully consistent when every descendant
    /// in its dependency tree records the same committed sequence
    /// number for it, otherwise partially consistent with the
    /// descendants grouped by the number they record. The source itself
    /// is not classified; a source with no descendants reports an
    /// empty partition.
    pub fn get_dependency_tree_consistency(&self) -> (r: Vec<(NodeHandle, Consistency)>)
        ensures
            r@.len() == self.deps_trees@.len(),
            forall|k: int|
                0 <= k < r@.len() ==> {
                    let src = self.deps_trees@[k].0@;
                    let handles = forest_handles(self.deps_trees@[k].1.children@);
                    let meta = meta_list_view(self.metadata@);
                    let groups = spec_add_handles(Seq::empty(), meta, src, handles);
                    &&& (#[trigger] r@[k]).0@ == src
                    &&& (r@[k].1 is FullyConsistent <==> groups.len() == 1)
                    &&& (r@[k].1 matches Consistency::FullyConsistent(q) ==> q == groups[0].0
                        && forall|j: int|
                        0 <= j < handles.len() ==> spec_seq_of(meta, src, #[trigger] handles[j])
                            == q)
                    &&& (r@[k].1 matches Consistency::PartiallyConsistent(gs) ==> groups_model(
                        gs@,
                    ) == groups)
                },
    {
        let ghost meta = meta_list_view(self.metadata@);
        let mut out: Vec<(NodeHandle, Consistency)> = Vec::new();
        let mut k: usize = 0;
        while k < self.deps_trees.len()
            invariant
                k <= self.deps_trees@.len(),
                meta == meta_list_view(self.metadata@),
                out@.len() == k,
                forall|j: int|
                    0 <= j < k ==> {
                        let src = self.deps_trees@[j].0@;
                        let handles = forest_handles(self.deps_trees@[j].1.children@);
                        let groups = spec_add_handles(Seq::empty(), meta, src, handles);
                        &&& (#[trigger] out@[j]).0@ == src
                        &&& (out@[j].1 is FullyConsistent <==> groups.len() == 1)
                        &&& (out@[j].1 matches Consistency::FullyConsistent(q) ==> q
                            == groups[0].0 && forall|i: int|
                            0 <= i < handles.len() ==> spec_seq_of(
                                meta,
                                src,
                                #[trigger] handles[i],
                            ) == q)
                        &&& (out@[j].1 matches Consistency::PartiallyConsistent(gs)
                            ==> groups_model(gs@) == groups)
                    },
            decreases self.deps_trees@.len() - k,
        {
            let entry = &self.deps_trees[k];
            let ghost src = entry.0@;
            let mut res: Vec<(u64, Vec<NodeHandle>)> = Vec::new();
            proof {
                assert(groups_model(res@) =~= Seq::<(u64, Seq<Seq<char>>)>::empty());
                assert(forest_handles(entry.1.children@.take(0))
                    =~= Seq::<Seq<char>>::empty());
                assert(spec_add_handles(
                    Seq::empty(),
                    meta,
                    src,
                    forest_handles(entry.1.children@.take(0)),
                ) =~= Seq::<(u64, Seq<Seq<char>>)>::empty());
            }
            let mut c: usize = 0;
            while c < entry.1.children.len()
                invariant
                    c <= entry.1.children@.len(),
                    meta == meta_list_view(self.metadata@),
                    src == entry.0@,
                    groups_model(res@) == spec_add_handles(
                        Seq::empty(),
                        meta,
                        src,
                        forest_handles(entry.1.children@.take(c as int)),
                    ),
                decreases entry.1.children@.len() - c,
            {
                let ghost prefix = forest_handles(entry.1.children@.take(c as int));
                get_dependency_tree_consistency_rec(
                    &self.metadata,
                    &entry.0,
                    &entry.1.children[c],
                    &mut res,
                );
                proof {
                    let grown = entry.1.children@.take(c as int + 1);
                    assert(grown.drop_last() =~= entry.1.children@.take(c as int));
                    assert(grown.last() == entry.1.children@[c as int]);
                    assert(forest_handles(grown) == prefix + tree_handles(
                        entry.1.children@[c as int],
                    ));
                    lemma_add_handles_concat(
                        Seq::empty(),
                        meta,
                        src,
                        prefix,
                        tree_handles(entry.1.children@[c as int]),
                    );
                }
                c = c + 1;
            }
            proof {
                assert(entry.1.children@.take(entry.1.children@.len() as int)
                    =~= entry.1.children@);
            }
            let ghost handles = forest_handles(entry.1.children@);
            let ghost groups = spec_add_handles(Seq::empty(), meta, src, handles);
            proof {
                lemma_groups_exact(meta, src, handles);
            }
            if res.len() == 1 {
                let q = res[0].0;
                proof {
                    assert(groups_model(res@)[0].0 == q);
                    assert forall|j: int| 0 <= j < handles.len() implies spec_seq_of(
                        meta,
                        src,
                        #[trigger] handles[j],
                    ) == q by {
                        let a = choose|a: int|
                            0 <= a < groups.len() && (#[trigger] groups[a]).0 == spec_seq_of(
                                meta,
                                src,
                                handles[j],
                            );
                        assert(a == 0);
                    }
                }
                out.push((entry.0.clone(), Consistency::FullyConsistent(q)));
            } else {
                out.push((entry.0.clone(), Consistency::PartiallyConsistent(res)));
            }
            k = k + 1;
        }
        out
    }
}

/// Law: for every tag, decoding an encoded checkpoint record yields the
/// record back.
pub proof fn lemma_checkpoint_record_round_trip(m: CheckpointRecordModel)
    ensures
        spec_decode_record(spec_encode_key(m), spec_encode_value(m)) == Ok::<
            CheckpointRecordModel,
            ExecutionError,
        >(m),
{
    let key = spec_encode_key(m);
    let value = spec_encode_value(m);
    match m {
        CheckpointRecordModel::SourceCommit { handle, seq } => {
            broadcast use vstd::utf8::encode_utf8_valid_utf8;
            broadcast use vstd::utf8::encode_utf8_decode_utf8;

            lemma_u64_be_round_trip(seq);
            assert(key[0] == SOURCE_ID_IDENTIFIER);
            assert(key.skip(1) =~= encode_utf8(handle));
            assert(decode_utf8(key.skip(1)) == handle);
        },
        CheckpointRecordModel::OutputSchema { port, schema } => {
            lemma_u16_be_round_trip(port);
            assert(key.len() == 3);
            assert(key[0] == OUTPUT_SCHEMA_IDENTIFIER);
            assert(key.skip(1) =~= spec_u16_be(port));
        },
        CheckpointRecordModel::InputSchema { port, schema } => {
            lemma_u16_be_round_trip(port);
            assert(key.len() == 3);
            assert(key[0] == INPUT_SCHEMA_IDENTIFIER);
            assert(key.skip(1) =~= spec_u16_be(port));
        },
    }
}

} // verus!
