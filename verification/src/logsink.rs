use vstd::prelude::*;
use vstd::bytes::*;

verus! {

/// Configuration of a log sink.
#[derive(Debug, Clone)]
pub struct LogSinkSettings {
    /// How many bytes the sink buffers before flushing to its file.
    pub file_buffer_capacity: u64,
}

/// One frame of the append-only log: an eight-byte little-endian
/// length, then the serialized payload.
pub open spec fn spec_frame(payload: Seq<u8>) -> Seq<u8> {
    spec_u64_to_le_bytes(payload.len() as u64) + payload
}

/// What parsing at `pos` yields: the payload and the position after it,
/// or nothing when the buffer ends too early.
pub open spec fn spec_read_frame(b: Seq<u8>, pos: int) -> Option<(Seq<u8>, int)> {
    if pos + 8 > b.len() {
        None
    } else {
        let n = spec_u64_from_le_bytes(b.subrange(pos, pos + 8)) as int;
        if pos + 8 + n > b.len() {
            None
        } else {
            Some((b.subrange(pos + 8, pos + 8 + n), pos + 8 + n))
        }
    }
}

/// Wraps a serialized message into a log frame.
pub fn frame_message(payload: &Vec<u8>) -> (r: Vec<u8>)
    ensures
        r@ == spec_frame(payload@),
{
    let mut out = u64_to_le_bytes(payload.len() as u64);
    let mut i: usize = 0;
    while i < payload.len()
        invariant
            i <= payload@.len(),
            out@ == spec_u64_to_le_bytes(payload@.len() as u64) + payload@.take(i as int),
        decreases payload@.len() - i,
    {
        out.push(payload[i]);
        proof {
            assert(out@ =~= spec_u64_to_le_bytes(payload@.len() as u64) + payload@.take(
                i as int + 1,
            ));
        }
        i = i + 1;
    }
    proof {
        assert(payload@.take(payload@.len() as int) =~= payload@);
    }
    out
}

/// Parses the frame starting at `pos`, returning the payload and the
/// position of the next frame.
pub fn read_frame(buf: &Vec<u8>, pos: usize) -> (r: Option<(Vec<u8>, usize)>)
    ensures
        match r {
            Some(p) => spec_read_frame(buf@, pos as int) matches Some(q) && p.0@ == q.0 && p.1
                as int == q.1,
            None => spec_read_frame(buf@, pos as int) is None,
        },
{
    if pos >= buf.len() || buf.len() - pos < 8 {
        return None;
    }
    let mut lenb: Vec<u8> = Vec::new();
    let mut i: usize = 0;
    while i < 8
        invariant
            i <= 8,
            pos + 8 <= buf@.len(),
            buf@.len() <= usize::MAX,
            lenb@ == buf@.subrange(pos as int, pos as int + i as int),
        decreases 8 - i,
    {
        lenb.push(buf[pos + i]);
        proof {
            assert(lenb@ =~= buf@.subrange(pos as int, pos as int + i as int + 1));
        }
        i = i + 1;
    }
    let n = u64_from_le_bytes(lenb.as_slice());
    let remaining: u64 = (buf.len() - pos - 8) as u64;
    if n > remaining {
        return None;
    }
    let count = n as usize;
    let start = pos + 8;
    let mut payload: Vec<u8> = Vec::new();
    let mut k: usize = 0;
    while k < count
        invariant
            k <= count,
            start + count <= buf@.len(),
            buf@.len() <= usize::MAX,
            payload@ == buf@.subrange(start as int, start as int + k as int),
        decreases count - k,
    {
        payload.push(buf[start + k]);
        proof {
            assert(payload@ =~= buf@.subrange(start as int, start as int + k as int + 1));
        }
        k = k + 1;
    }
    Some((payload, start + count))
}

/// Law: parsing a frame written at the front of a buffer yields the
/// framed payload back and lands just behind it, whatever follows.
pub proof fn lemma_frame_round_trip(payload: Seq<u8>, rest: Seq<u8>)
    requires
        payload.len() <= u64::MAX,
    ensures
        spec_read_frame(spec_frame(payload) + rest, 0) matches Some(q) && q.0 == payload && q.1
            == 8 + payload.len(),
{
    lemma_auto_spec_u64_to_from_le_bytes();
    let b = spec_frame(payload) + rest;
    assert(spec_u64_to_le_bytes(payload.len() as u64).len() == 8);
    assert(b.subrange(0, 8) =~= spec_u64_to_le_bytes(payload.len() as u64));
    assert(spec_u64_from_le_bytes(b.subrange(0, 8)) == payload.len() as u64);
    assert(b.subrange(8, 8 + payload.len() as int) =~= payload);
}

/// A sink's progress counter: one count per processed operation, with
/// a progress notification due every thousandth operation.
pub struct LogProgress {
    pub counter: usize,
}

impl LogProgress {
    /// A counter that has seen nothing.
    pub fn new() -> (r: Self)
        ensures
            r.counter == 0,
    {
        Self { counter: 0 }
    }

    /// Counts one processed operation; says whether a progress
    /// notification is due.
    pub fn record_op(&mut self) -> (notify: bool)
        requires
            old(self).counter < usize::MAX,
        ensures
            final(self).counter == old(self).counter + 1,
            notify == (final(self).counter % 1000 == 0),
    {
        self.counter = self.counter + 1;
        self.counter % 1000 == 0
    }
}

} // verus!
