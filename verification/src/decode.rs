//! The decoder side of the binary codec: an explicit byte-at-a-time state
//! machine.
//!
//! Bytes normally pair up into big-endian words.  A word is either the
//! end-of-record marker (finish the record and emit), the skip escape (the
//! single next byte advances the partition cursor), or a node identifier,
//! which is assigned the cursor's partition in the cumulative snapshot and
//! appended to the record's delta.  The cursor and the delta are reset at
//! every record boundary; the snapshot persists, so replaying the deltas in
//! order rebuilds every step's full snapshot.

use vstd::prelude::*;

use crate::diff::Diff;

verus! {

/// Why a byte stream cannot be decoded.
#[derive(Clone, Copy, Debug, PartialEq, Eq, Structural)]
pub enum DecodeError {
    /// A skip escape pushed the partition cursor beyond one byte.
    CursorOverflow,
}

/// What finishing one record leaves behind: the cumulative snapshot as it
/// stands at the record's end, and the record's own delta.
#[verifier::ext_equal]
pub struct SpecRecord {
    pub mapping: Seq<u8>,
    pub delta: Seq<Seq<usize>>,
}

/// The decoder's abstract state.
#[verifier::ext_equal]
pub struct SpecDecoder {
    /// No malformed input was hit so far.
    pub ok: bool,
    /// First byte of a half-read word, if any.
    pub pending: Option<u8>,
    /// The next byte is a skip count, not part of a word.
    pub awaiting_skip: bool,
    /// The partition cursor.
    pub district: u8,
    /// The cumulative snapshot.
    pub mapping: Seq<u8>,
    /// The current record's delta.
    pub delta: Seq<Seq<usize>>,
    /// The records finished so far.
    pub records: Seq<SpecRecord>,
}

/// The state a decoder starts in.
pub open spec fn init_decoder() -> SpecDecoder {
    SpecDecoder {
        ok: true,
        pending: None,
        awaiting_skip: false,
        district: 0,
        mapping: Seq::empty(),
        delta: seq![Seq::<usize>::empty()],
        records: Seq::empty(),
    }
}

/// Assign label `lab` to `node`, zero-extending the snapshot on demand.
pub open spec fn spec_assign(m: Seq<u8>, node: int, lab: u8) -> Seq<u8> {
    let grown = if node < m.len() {
        m
    } else {
        m + Seq::new((node + 1 - m.len()) as nat, |k: int| 0u8)
    };
    grown.update(node, lab)
}

/// Consume one byte.
pub open spec fn spec_step(s: SpecDecoder, byte: u8) -> SpecDecoder {
    if !s.ok {
        s
    } else if s.awaiting_skip {
        if s.district + byte > 255 {
            SpecDecoder { ok: false, ..s }
        } else {
            SpecDecoder { awaiting_skip: false, district: (s.district + byte) as u8, ..s }
        }
    } else {
        match s.pending {
            None => SpecDecoder { pending: Some(byte), ..s },
            Some(high) => {
                let word = high * 256 + byte;
                if word == 65535 {
                    SpecDecoder {
                        pending: None,
                        district: 0,
                        delta: seq![Seq::<usize>::empty()],
                        records: s.records.push(
                            SpecRecord { mapping: s.mapping, delta: s.delta },
                        ),
                        ..s
                    }
                } else if word == 65534 {
                    SpecDecoder { pending: None, awaiting_skip: true, ..s }
                } else {
                    SpecDecoder {
                        pending: None,
                        mapping: spec_assign(s.mapping, word, s.district),
                        delta: Diff::spec_add(s.delta, s.district as int, word as usize),
                        ..s
                    }
                }
            },
        }
    }
}

/// Consume a whole byte sequence.
pub open spec fn spec_run(s: SpecDecoder, bytes: Seq<u8>) -> SpecDecoder
    decreases bytes.len(),
{
    if bytes.len() == 0 {
        s
    } else {
        spec_run(spec_step(s, bytes[0]), bytes.drop_first())
    }
}

/// The state a fresh decoder reaches on a byte stream.
pub open spec fn decode_spec(bytes: Seq<u8>) -> SpecDecoder {
    spec_run(init_decoder(), bytes)
}

/// The records a decode pass emits: all of them when `location` is zero, else
/// only the record at position `location` (if the stream has one).
pub open spec fn selected(records: Seq<SpecRecord>, location: int) -> Seq<SpecRecord> {
    if location == 0 {
        records
    } else if location < records.len() {
        seq![records[location]]
    } else {
        Seq::empty()
    }
}

/// One emitted record: the rebuilt snapshot, or the record's delta, depending
/// on what the decode pass was asked for.
#[derive(Debug, PartialEq, Eq)]
pub enum DecodedRecord {
    Mapping(Vec<u8>),
    Delta(Diff),
}

/// The emitted value carries exactly what the abstract record holds.
pub open spec fn rec_matches(out: DecodedRecord, rec: SpecRecord, emit_delta: bool) -> bool {
    match out {
        DecodedRecord::Mapping(m) => !emit_delta && m@ == rec.mapping,
        DecodedRecord::Delta(dd) => emit_delta && dd@ == rec.delta,
    }
}

/// Running from a failed state goes nowhere.
pub proof fn lemma_run_fail(s: SpecDecoder, bytes: Seq<u8>)
    requires
        !s.ok,
    ensures
        spec_run(s, bytes) == s,
    decreases bytes.len(),
{
    if bytes.len() > 0 {
        lemma_run_fail(spec_step(s, bytes[0]), bytes.drop_first());
    }
}

/// Runs compose: a split input reaches the same state.
pub proof fn lemma_run_split(s: SpecDecoder, x: Seq<u8>, y: Seq<u8>)
    ensures
        spec_run(s, x + y) == spec_run(spec_run(s, x), y),
    decreases x.len(),
{
    if x.len() == 0 {
        assert(x + y =~= y);
    } else {
        lemma_run_split(spec_step(s, x[0]), x.drop_first(), y);
        assert((x + y).drop_first() =~= x.drop_first() + y);
        assert((x + y)[0] == x[0]);
    }
}

/// Extending the input by one byte takes one more step.
pub proof fn lemma_run_snoc(s: SpecDecoder, bytes: Seq<u8>, byte: u8)
    ensures
        spec_run(s, bytes.push(byte)) == spec_step(spec_run(s, bytes), byte),
    decreases bytes.len(),
{
    if bytes.len() == 0 {
        assert(bytes.push(byte)[0] == byte);
        assert(bytes.push(byte).drop_first() =~= Seq::<u8>::empty());
        assert(spec_run(s, bytes.push(byte)) == spec_run(
            spec_step(s, byte),
            bytes.push(byte).drop_first(),
        ));
    } else {
        lemma_run_snoc(spec_step(s, bytes[0]), bytes.drop_first(), byte);
        assert(bytes.push(byte).drop_first() =~= bytes.drop_first().push(byte));
        assert(bytes.push(byte)[0] == bytes[0]);
    }
}

/// Each consumed byte finishes at most one record.
pub proof fn lemma_records_bound(s: SpecDecoder, bytes: Seq<u8>)
    ensures
        spec_run(s, bytes).records.len() <= s.records.len() + bytes.len(),
    decreases bytes.len(),
{
    if bytes.len() > 0 {
        lemma_records_bound(spec_step(s, bytes[0]), bytes.drop_first());
    }
}

/// A fresh copy of a label vector.
fn clone_labels(m: &Vec<u8>) -> (r: Vec<u8>)
    ensures
        r@ == m@,
{
    let mut r: Vec<u8> = Vec::new();
    let mut j: usize = 0;
    while j < m.len()
        invariant
            j <= m@.len(),
            r@ == m@.take(j as int),
        decreases m@.len() - j,
    {
        let x = m[j];
        r.push(x);
        proof {
            assert(m@.take(j + 1) =~= m@.take(j as int).push(m@[j as int]));
        }
        j = j + 1;
    }
    proof {
        assert(m@.take(m@.len() as int) =~= m@);
    }
    r
}

/// A fresh copy of a delta.
fn clone_delta(d: &Diff) -> (r: Diff)
    ensures
        r@ == d@,
{
    let mut lists: Vec<Vec<usize>> = Vec::new();
    let mut i: usize = 0;
    while i < d.diff.len()
        invariant
            i <= d@.len(),
            lists@.len() == i,
            forall|p: int| 0 <= p < i ==> lists@[p]@ == d@[p],
        decreases d@.len() - i,
    {
        let mut nodes: Vec<usize> = Vec::new();
        let mut j: usize = 0;
        while j < d.diff[i].len()
            invariant
                i < d@.len(),
                j <= d@[i as int].len(),
                d@[i as int].len() == d.diff@[i as int]@.len(),
                nodes@ == d@[i as int].take(j as int),
            decreases d@[i as int].len() - j,
        {
            let x = d.diff[i][j];
            nodes.push(x);
            proof {
                assert(d@[i as int].take(j + 1) =~= d@[i as int].take(j as int).push(
                    d@[i as int][j as int],
                ));
            }
            j = j + 1;
        }
        proof {
            assert(d@[i as int].take(d@[i as int].len() as int) =~= d@[i as int]);
        }
        lists.push(nodes);
        i = i + 1;
    }
    let r = Diff { diff: lists };
    proof {
        assert(r@ =~= d@);
    }
    r
}

/// Assign label `lab` to `node` in the cumulative snapshot, zero-extending it
/// on demand.
fn assign_label(m: &mut Vec<u8>, node: usize, lab: u8)
    requires
        node < usize::MAX,
    ensures
        final(m)@ == spec_assign(old(m)@, node as int, lab),
{
    let ghost orig = m@;
    while m.len() <= node
        invariant
            node < usize::MAX,
            m@.len() >= orig.len(),
            m@.len() == orig.len() || m@.len() <= node + 1,
            forall|k: int| 0 <= k < orig.len() ==> m@[k] == orig[k],
            forall|k: int| orig.len() <= k < m@.len() ==> m@[k] == 0u8,
        decreases node + 1 - m.len(),
    {
        m.push(0u8);
    }
    proof {
        if orig.len() <= node {
            assert(m@ =~= orig + Seq::new((node + 1 - orig.len()) as nat, |k: int| 0u8));
        } else {
            assert(m@ =~= orig);
        }
    }
    m.set(node, lab);
}

/// The executable decoder: the abstract state machine plus the output
/// filtering that a decode pass was configured with.
pub struct Decoder {
    /// Emit only the record at this position; zero emits all.
    pub location: usize,
    /// Emit per-record deltas instead of full snapshots.
    pub emit_delta: bool,
    /// First byte of a half-read word, if any.
    pub pending: Option<u8>,
    /// The next byte is a skip count.
    pub awaiting_skip: bool,
    /// The partition cursor.
    pub district: u8,
    /// The cumulative snapshot.
    pub mapping: Vec<u8>,
    /// The current record's delta.
    pub delta: Diff,
    /// How many records were finished so far.
    pub counter: usize,
    /// What the pass has emitted.
    pub outputs: Vec<DecodedRecord>,
    /// The abstract records finished so far.
    pub records: Ghost<Seq<SpecRecord>>,
}

impl View for Decoder {
    type V = SpecDecoder;

    open spec fn view(&self) -> SpecDecoder {
        SpecDecoder {
            ok: true,
            pending: self.pending,
            awaiting_skip: self.awaiting_skip,
            district: self.district,
            mapping: self.mapping@,
            delta: self.delta@,
            records: self.records@,
        }
    }
}

impl Decoder {
    /// The outputs hold exactly the selected records, in the configured form.
    pub open spec fn wf(&self) -> bool {
        &&& self.counter == self.records@.len()
        &&& self.outputs@.len() == selected(self.records@, self.location as int).len()
        &&& forall|j: int| 0 <= j < self.outputs@.len() ==> rec_matches(
            self.outputs@[j],
            selected(self.records@, self.location as int)[j],
            self.emit_delta,
        )
    }

    /// A decoder at the start of a stream.
    pub fn new(location: usize, emit_delta: bool) -> (r: Decoder)
        ensures
            r@ == init_decoder(),
            r.wf(),
            r.location == location,
            r.emit_delta == emit_delta,
            r.outputs@.len() == 0,
    {
        let r = Decoder {
            location,
            emit_delta,
            pending: None,
            awaiting_skip: false,
            district: 0,
            mapping: Vec::new(),
            delta: Diff::new(),
            counter: 0,
            outputs: Vec::new(),
            records: Ghost(Seq::empty()),
        };
        proof {
            assert(r@ =~= init_decoder());
        }
        r
    }

    /// Consume one byte of the stream.
    pub fn step(&mut self, byte: u8) -> (r: Result<(), DecodeError>)
        requires
            old(self).wf(),
            old(self)@.records.len() < usize::MAX,
        ensures
            final(self).location == old(self).location,
            final(self).emit_delta == old(self).emit_delta,
            match r {
                Ok(()) => {
                    &&& final(self)@ == spec_step(old(self)@, byte)
                    &&& spec_step(old(self)@, byte).ok
                    &&& final(self).wf()
                },
                Err(e) => !spec_step(old(self)@, byte).ok && e == DecodeError::CursorOverflow,
            },
    {
        if self.awaiting_skip {
            let sum: u32 = self.district as u32 + byte as u32;
            if sum > 255 {
                return Err(DecodeError::CursorOverflow);
            }
            self.district = sum as u8;
            self.awaiting_skip = false;
            proof {
                assert(self@ =~= spec_step(old(self)@, byte));
            }
            return Ok(());
        }
        match self.pending {
            None => {
                self.pending = Some(byte);
                proof {
                    assert(self@ =~= spec_step(old(self)@, byte));
                }
                Ok(())
            },
            Some(high) => {
                self.pending = None;
                let word: u32 = (high as u32) * 256 + (byte as u32);
                if word == 65535 {
                    let ghost sel0 = selected(self.records@, self.location as int);
                    let emit = self.location == 0 || self.counter == self.location;
                    if emit {
                        if self.emit_delta {
                            let copy = clone_delta(&self.delta);
                            self.outputs.push(DecodedRecord::Delta(copy));
                        } else {
                            let copy = clone_labels(&self.mapping);
                            self.outputs.push(DecodedRecord::Mapping(copy));
                        }
                    }
                    self.records = Ghost(
                        self.records@.push(
                            SpecRecord { mapping: self.mapping@, delta: self.delta@ },
                        ),
                    );
                    self.counter = self.counter + 1;
                    self.district = 0;
                    self.delta = Diff::new();
                    proof {
                        assert(self@ =~= spec_step(old(self)@, byte));
                        let loc = self.location as int;
                        let sel = selected(self.records@, loc);
                        if loc == 0 {
                            assert(sel =~= sel0.push(self.records@.last()));
                        } else if loc == self.records@.len() - 1 {
                            assert(sel0 =~= Seq::<SpecRecord>::empty());
                            assert(sel =~= seq![self.records@.last()]);
                        } else if loc < self.records@.len() - 1 {
                            assert(sel =~= sel0);
                        } else {
                            assert(sel =~= Seq::<SpecRecord>::empty());
                            assert(sel0 =~= Seq::<SpecRecord>::empty());
                        }
                    }
                    Ok(())
                } else if word == 65534 {
                    self.awaiting_skip = true;
                    proof {
                        assert(self@ =~= spec_step(old(self)@, byte));
                    }
                    Ok(())
                } else {
                    let node = word as usize;
                    assign_label(&mut self.mapping, node, self.district);
                    let district = self.district;
                    self.delta.add(district as usize, node);
                    proof {
                        assert(self@ =~= spec_step(old(self)@, byte));
                    }
                    Ok(())
                }
            },
        }
    }
}

/// Decode a whole byte stream.  With `location` zero every record is emitted;
/// otherwise only the record at that position.  With `diff` set each emitted
/// record is the record's delta; otherwise it is the full snapshot as rebuilt
/// up to that record.
pub fn decode(stream: &Vec<u8>, location: usize, diff: bool) -> (r: Result<
    Vec<DecodedRecord>,
    DecodeError,
>)
    ensures
        match r {
            Ok(out) => {
                &&& decode_spec(stream@).ok
                &&& out@.len() == selected(decode_spec(stream@).records, location as int).len()
                &&& forall|j: int| 0 <= j < out@.len() ==> rec_matches(
                    out@[j],
                    selected(decode_spec(stream@).records, location as int)[j],
                    diff,
                )
            },
            Err(e) => !decode_spec(stream@).ok && e == DecodeError::CursorOverflow,
        },
{
    let mut dec = Decoder::new(location, diff);
    let mut i: usize = 0;
    while i < stream.len()
        invariant
            i <= stream@.len(),
            dec.wf(),
            dec@ == spec_run(init_decoder(), stream@.take(i as int)),
            dec@.ok,
            dec.location == location,
            dec.emit_delta == diff,
        decreases stream@.len() - i,
    {
        let b = stream[i];
        proof {
            lemma_records_bound(init_decoder(), stream@.take(i as int));
            lemma_run_snoc(init_decoder(), stream@.take(i as int), b);
            assert(stream@.take(i + 1) =~= stream@.take(i as int).push(stream@[i as int]));
        }
        match dec.step(b) {
            Ok(()) => {},
            Err(e) => {
                proof {
                    assert(!spec_run(init_decoder(), stream@.take(i + 1)).ok);
                    lemma_run_split(init_decoder(), stream@.take(i + 1), stream@.skip(i + 1));
                    assert(stream@.take(i + 1) + stream@.skip(i + 1) =~= stream@);
                    lemma_run_fail(spec_run(init_decoder(), stream@.take(i + 1)), stream@.skip(i + 1));
                }
                return Err(e);
            },
        }
        i = i + 1;
    }
    proof {
        assert(stream@.take(stream@.len() as int) =~= stream@);
    }
    Ok(dec.outputs)
}

/// Selective replay: asking for record `k` of a stream yields exactly the
/// record that a full replay (`location` zero) produces at position `k`, and
/// nothing else; a position past the stream's records yields nothing.
pub proof fn lemma_selective_replay(bytes: Seq<u8>, k: int)
    requires
        k > 0,
    ensures
        0 <= k < decode_spec(bytes).records.len() ==> selected(decode_spec(bytes).records, k)
            =~= seq![selected(decode_spec(bytes).records, 0)[k]],
        !(0 <= k < decode_spec(bytes).records.len()) ==> selected(decode_spec(bytes).records, k)
            =~= Seq::<SpecRecord>::empty(),
{
}

} // verus!
