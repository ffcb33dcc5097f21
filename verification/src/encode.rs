//! The encoder side of the binary codec.
//!
//! One record per snapshot: the delta against the previous snapshot is laid
//! out partition by partition.  Every non-empty partition after the first
//! emitted one is prefixed by the two-byte skip escape and a one-byte count of
//! positions advanced since the last non-empty partition; the partition's
//! nodes follow as two-byte big-endian words; the record closes with the
//! two-byte end-of-record marker.  Node identifiers must stay clear of the two
//! reserved words, and a skip run must fit its one byte; inputs that cannot be
//! represented are rejected with a typed error instead of being emitted
//! corrupted.

use vstd::prelude::*;

use crate::diff::{
    compute_diff, count_changed, count_changes, delta_of, delta_width, lemma_delta_membership,
    lemma_delta_nodes_bound, Diff,
};

verus! {

/// Largest node identifier the wire format can carry: the two values above it
/// are the skip escape and the end-of-record marker.
pub const MAX_NODE_ID: usize = 65533;

/// Largest partition label the encoder accepts; it keeps every skip run and
/// every decoder cursor value within one byte.
pub const MAX_LABEL: usize = 253;

/// First byte of both reserved words.
pub const MARKER_HIGH: u8 = 255;

/// Second byte of the skip escape.
pub const SKIP_LOW: u8 = 254;

/// Second byte of the end-of-record marker.
pub const END_LOW: u8 = 255;

/// Why a snapshot or a delta cannot be put on the wire.
#[derive(Clone, Copy, Debug, PartialEq, Eq, Structural)]
pub enum EncodeError {
    /// A node identifier collides with the reserved words (or a snapshot is so
    /// long that its last node would).
    NodeOutOfRange,
    /// A partition label is too large for the one-byte cursor arithmetic.
    LabelOutOfRange,
    /// A run of empty partitions is too long for its one-byte count.
    SkipRunTooLong,
}

/// The two big-endian bytes of a node identifier.
pub open spec fn be_bytes(n: usize) -> Seq<u8> {
    seq![(n / 256) as u8, (n % 256) as u8]
}

/// A partition's nodes, each as two big-endian bytes.
pub open spec fn node_bytes(ns: Seq<usize>) -> Seq<u8>
    decreases ns.len(),
{
    if ns.len() == 0 {
        Seq::empty()
    } else {
        be_bytes(ns[0]) + node_bytes(ns.drop_first())
    }
}

/// The wire bytes of partitions `i..` of delta `d`, where `q` is the position
/// of the last non-empty partition before `i` (or zero at record start); the
/// end-of-record marker closes the record.  A non-empty partition at position
/// zero is never preceded by a skip escape.
pub open spec fn enc_from(d: Seq<Seq<usize>>, i: int, q: int) -> Seq<u8>
    decreases d.len() - i,
{
    if i < 0 || i >= d.len() {
        seq![MARKER_HIGH, END_LOW]
    } else if d[i].len() == 0 {
        enc_from(d, i + 1, q)
    } else {
        let header = if i == 0 {
            Seq::<u8>::empty()
        } else {
            seq![MARKER_HIGH, SKIP_LOW, (i - q) as u8]
        };
        header + node_bytes(d[i]) + enc_from(d, i + 1, i)
    }
}

/// The full wire encoding of one delta.
pub open spec fn delta_bytes(d: Seq<Seq<usize>>) -> Seq<u8> {
    enc_from(d, 0, 0)
}

/// The first reason, in emission order, why delta `d` cannot go on the wire
/// from position `i` on; `None` when it can.
pub open spec fn wire_err_from(d: Seq<Seq<usize>>, i: int, q: int) -> Option<EncodeError>
    decreases d.len() - i,
{
    if i < 0 || i >= d.len() {
        None
    } else if d[i].len() == 0 {
        wire_err_from(d, i + 1, q)
    } else if i > 0 && i - q > 255 {
        Some(EncodeError::SkipRunTooLong)
    } else if exists|k: int| 0 <= k < d[i].len() && d[i][k] > MAX_NODE_ID {
        Some(EncodeError::NodeOutOfRange)
    } else {
        wire_err_from(d, i + 1, i)
    }
}

/// Why a snapshot cannot be encoded; `None` when it can.
pub open spec fn snapshot_err(s: Seq<usize>) -> Option<EncodeError> {
    if s.len() > MAX_NODE_ID + 1 {
        Some(EncodeError::NodeOutOfRange)
    } else if exists|n: int| 0 <= n < s.len() && s[n] > MAX_LABEL {
        Some(EncodeError::LabelOutOfRange)
    } else {
        None
    }
}

/// A snapshot the encoder accepts: every node identifier and every label fits
/// the wire format.
pub open spec fn snapshot_ok(s: Seq<usize>) -> bool {
    snapshot_err(s) is None
}

/// The first reason, in input order, why one of the snapshots `i..` cannot be
/// encoded.
pub open spec fn snapshots_err(ss: Seq<Seq<usize>>, i: int) -> Option<EncodeError>
    decreases ss.len() - i,
{
    if i < 0 || i >= ss.len() {
        None
    } else if snapshot_err(ss[i]) is Some {
        snapshot_err(ss[i])
    } else {
        snapshots_err(ss, i + 1)
    }
}

/// The snapshot with labels `x` and `y` exchanged everywhere.
pub open spec fn swap_labels(m: Seq<usize>, x: usize, y: usize) -> Seq<usize> {
    m.map_values(
        |lab: usize|
            if lab == x {
                y
            } else if lab == y {
                x
            } else {
                lab
            },
    )
}

/// How many of the first `i` partitions of `d` are non-empty.
pub open spec fn nonempty_count_upto(d: Seq<Seq<usize>>, i: int) -> int
    decreases i,
{
    if i <= 0 {
        0
    } else {
        nonempty_count_upto(d, i - 1) + if d[i - 1].len() > 0 {
            1int
        } else {
            0int
        }
    }
}

/// The first non-empty partition at or after `i`, or `d.len()` if none.
pub open spec fn first_nonempty_from(d: Seq<Seq<usize>>, i: int) -> int
    decreases d.len() - i,
{
    if i < 0 || i >= d.len() {
        d.len() as int
    } else if d[i].len() > 0 {
        i
    } else {
        first_nonempty_from(d, i + 1)
    }
}

/// The snapshot the encoder adopts for one step: the input snapshot, or, in
/// extreme mode, the input with its two touched partition labels swapped when
/// that strictly shrinks the changed-node count.
pub open spec fn adopt_spec(prev: Seq<usize>, cur: Seq<usize>, extreme: bool) -> Seq<usize> {
    if !extreme {
        cur
    } else {
        let d = delta_of(prev, cur);
        if nonempty_count_upto(d, d.len() as int) == 2 {
            let x = first_nonempty_from(d, 0);
            let y = first_nonempty_from(d, x + 1);
            let sw = swap_labels(cur, x as usize, y as usize);
            if count_changed(prev, sw) < count_changed(prev, cur) {
                sw
            } else {
                cur
            }
        } else {
            cur
        }
    }
}

/// The snapshot the decoder will hold before record `i` is applied: the empty
/// snapshot at the start, then each step's adopted snapshot.
pub open spec fn prev_at(ss: Seq<Seq<usize>>, i: int, extreme: bool) -> Seq<usize>
    decreases i,
{
    if i <= 0 {
        Seq::empty()
    } else {
        adopt_spec(prev_at(ss, i - 1, extreme), ss[i - 1], extreme)
    }
}

/// The wire bytes of snapshots `i..`, continuing from the snapshot `prev`.
pub open spec fn encode_all(prev: Seq<usize>, ss: Seq<Seq<usize>>, i: int, extreme: bool) -> Seq<
    u8,
>
    decreases ss.len() - i,
{
    if i < 0 || i >= ss.len() {
        Seq::empty()
    } else {
        let adopted = adopt_spec(prev, ss[i], extreme);
        delta_bytes(delta_of(prev, adopted)) + encode_all(adopted, ss, i + 1, extreme)
    }
}

/// The relabel heuristic never emits more changed nodes than the plain delta
/// would: whatever it adopts, the adopted snapshot's changed-node count stays
/// at or below the input snapshot's.
pub proof fn lemma_relabel_no_increase(prev: Seq<usize>, cur: Seq<usize>, extreme: bool)
    ensures
        count_changed(prev, adopt_spec(prev, cur, extreme)) <= count_changed(prev, cur),
{
}

/// Serialize one delta to wire bytes.
pub fn export_diff(delta: &Diff) -> (r: Result<Vec<u8>, EncodeError>)
    ensures
        match r {
            Ok(bytes) => wire_err_from(delta@, 0, 0) is None && bytes@ == delta_bytes(delta@),
            Err(e) => wire_err_from(delta@, 0, 0) == Some(e),
        },
{
    let ghost d = delta@;
    let mut out: Vec<u8> = Vec::new();
    let mut skipped: usize = 0;
    let mut i: usize = 0;
    while i < delta.diff.len()
        invariant
            d == delta@,
            i <= d.len(),
            skipped <= i,
            delta_bytes(d) == out@ + enc_from(d, i as int, i as int - skipped as int),
            wire_err_from(d, 0, 0) == wire_err_from(d, i as int, i as int - skipped as int),
        decreases d.len() - i,
    {
        let ghost q = i as int - skipped as int;
        let group_len = delta.diff[i].len();
        proof {
            assert(d[i as int].len() == group_len);
        }
        if group_len == 0 {
            skipped = skipped + 1;
            proof {
                assert(enc_from(d, i as int, q) == enc_from(d, i + 1, q));
                assert(wire_err_from(d, i as int, q) == wire_err_from(d, i + 1, q));
            }
        } else {
            let ghost base0 = out@;
            if i > 0 {
                if skipped > 255 {
                    proof {
                        assert(wire_err_from(d, i as int, q) == Some(EncodeError::SkipRunTooLong));
                    }
                    return Err(EncodeError::SkipRunTooLong);
                }
                out.push(MARKER_HIGH);
                out.push(SKIP_LOW);
                out.push(skipped as u8);
            }
            let ghost header = if i == 0 {
                Seq::<u8>::empty()
            } else {
                seq![MARKER_HIGH, SKIP_LOW, (i as int - q) as u8]
            };
            let ghost base = out@;
            proof {
                assert(base =~= base0 + header);
            }
            let mut k: usize = 0;
            let group_len2 = delta.diff[i].len();
            while k < group_len2
                invariant
                    d == delta@,
                    i < d.len(),
                    group_len2 == d[i as int].len(),
                    k <= group_len2,
                    out@ == base + node_bytes(d[i as int].take(k as int)),
                    forall|j: int| 0 <= j < k ==> d[i as int][j] <= MAX_NODE_ID,
                    wire_err_from(d, 0, 0) == wire_err_from(d, i as int, q),
                    i > 0 ==> i as int - q <= 255,
                    d[i as int].len() > 0,
                decreases group_len2 - k,
            {
                let node = delta.diff[i][k];
                if node > MAX_NODE_ID {
                    proof {
                        assert(wire_err_from(d, i as int, q) == Some(EncodeError::NodeOutOfRange));
                    }
                    return Err(EncodeError::NodeOutOfRange);
                }
                out.push((node / 256) as u8);
                out.push((node % 256) as u8);
                proof {
                    let ns = d[i as int];
                    assert(ns.take(k + 1).drop_last() =~= ns.take(k as int));
                    lemma_node_bytes_snoc(ns.take(k + 1));
                    assert(ns.take(k + 1).last() == node);
                    assert(out@ =~= base + node_bytes(ns.take(k + 1)));
                }
                k = k + 1;
            }
            proof {
                let ns = d[i as int];
                assert(ns.take(ns.len() as int) =~= ns);
                assert(out@ == base + node_bytes(ns));
                assert(enc_from(d, i as int, q) == header + node_bytes(ns) + enc_from(
                    d,
                    i + 1,
                    i as int,
                ));
                assert(delta_bytes(d) =~= out@ + enc_from(d, i + 1, i as int));
                assert(!(exists|j: int| 0 <= j < ns.len() && ns[j] > MAX_NODE_ID));
                assert(wire_err_from(d, i as int, q) == wire_err_from(d, i + 1, i as int));
            }
            skipped = 1;
        }
        i = i + 1;
    }
    out.push(MARKER_HIGH);
    out.push(END_LOW);
    proof {
        assert(enc_from(d, d.len() as int, i as int - skipped as int) =~= seq![
            MARKER_HIGH,
            END_LOW,
        ]);
        assert(out@ =~= delta_bytes(d));
    }
    Ok(out)
}

/// The bytes of a partition list grow two at a time as nodes are appended.
proof fn lemma_node_bytes_snoc(ns: Seq<usize>)
    requires
        ns.len() > 0,
    ensures
        node_bytes(ns) == node_bytes(ns.drop_last()) + be_bytes(ns.last()),
    decreases ns.len(),
{
    if ns.len() == 1 {
        assert(ns.drop_last() =~= Seq::<usize>::empty());
        assert(node_bytes(ns) =~= be_bytes(ns[0]) + node_bytes(ns.drop_first()));
        assert(node_bytes(ns.drop_first()) =~= Seq::<u8>::empty());
        assert(node_bytes(ns) =~= node_bytes(ns.drop_last()) + be_bytes(ns.last()));
    } else {
        lemma_node_bytes_snoc(ns.drop_first());
        assert(ns.drop_first().drop_last() =~= ns.drop_last().drop_first());
        assert(ns.drop_last()[0] == ns[0]);
        assert(node_bytes(ns.drop_last()) == be_bytes(ns[0]) + node_bytes(
            ns.drop_last().drop_first(),
        ));
        assert(node_bytes(ns) =~= node_bytes(ns.drop_last()) + be_bytes(ns.last()));
    }
}


proof fn lemma_wire_ok_from(d: Seq<Seq<usize>>, i: int, q: int)
    requires
        0 <= i,
        0 <= q,
        forall|j: int| i <= j < d.len() && #[trigger] d[j].len() > 0 ==> j <= 255,
        forall|j: int, k: int| #![trigger d[j][k]] i <= j < d.len() && 0 <= k < d[j].len()
            ==> d[j][k] <= MAX_NODE_ID,
    ensures
        wire_err_from(d, i, q) is None,
    decreases d.len() - i,
{
    if i < d.len() {
        if d[i].len() == 0 {
            lemma_wire_ok_from(d, i + 1, q);
        } else {
            lemma_wire_ok_from(d, i + 1, i);
        }
    }
}

/// The parts of a delta computed against an acceptable snapshot fit the wire
/// format's ranges: non-empty partitions sit at positions of used labels, and
/// nodes stay clear of the reserved words.
pub proof fn lemma_delta_wire_bounds(a: Seq<usize>, b: Seq<usize>)
    requires
        snapshot_ok(b),
    ensures
        forall|j: int| 0 <= j < delta_of(a, b).len() && #[trigger] delta_of(a, b)[j].len() > 0
            ==> j <= MAX_LABEL,
        forall|j: int, k: int|
            #![trigger delta_of(a, b)[j][k]]
            0 <= j < delta_of(a, b).len() && 0 <= k < delta_of(a, b)[j].len() ==> delta_of(a, b)[
                j
            ][k] <= MAX_NODE_ID,
{
    let d = delta_of(a, b);
    assert forall|j: int| 0 <= j < d.len() && #[trigger] d[j].len() > 0 implies j <= MAX_LABEL by {
        let m = d[j][0];
        lemma_delta_membership(a, b, j, b.len() as int, m);
        assert(d[j].contains(m)) by {
            assert(d[j][0] == m && 0 < d[j].len());
        }
    }
    assert forall|j: int, k: int| #![trigger d[j][k]] 0 <= j < d.len() && 0 <= k < d[j].len()
        implies d[j][k] <= MAX_NODE_ID by {
        lemma_delta_nodes_bound(a, b, j, b.len() as int);
    }
}

/// A delta computed against an acceptable snapshot always fits the wire
/// format: its non-empty partitions sit at label positions within one byte,
/// and its nodes stay clear of the reserved words.
pub proof fn lemma_wire_ok(a: Seq<usize>, b: Seq<usize>)
    requires
        snapshot_ok(b),
    ensures
        wire_err_from(delta_of(a, b), 0, 0) is None,
{
    let d = delta_of(a, b);
    lemma_delta_wire_bounds(a, b);
    lemma_wire_ok_from(d, 0, 0);
}

/// Reject a snapshot that the wire format cannot carry.
fn check_snapshot(s: &Vec<usize>) -> (r: Result<(), EncodeError>)
    ensures
        match r {
            Ok(()) => snapshot_err(s@) is None,
            Err(e) => snapshot_err(s@) == Some(e),
        },
{
    if s.len() > MAX_NODE_ID + 1 {
        return Err(EncodeError::NodeOutOfRange);
    }
    let mut j: usize = 0;
    while j < s.len()
        invariant
            j <= s@.len(),
            s@.len() <= MAX_NODE_ID + 1,
            forall|k: int| 0 <= k < j ==> s@[k] <= MAX_LABEL,
        decreases s@.len() - j,
    {
        if s[j] > MAX_LABEL {
            return Err(EncodeError::LabelOutOfRange);
        }
        j = j + 1;
    }
    Ok(())
}

/// A fresh copy of a snapshot.
fn clone_snapshot(s: &Vec<usize>) -> (r: Vec<usize>)
    ensures
        r@ == s@,
{
    let mut r: Vec<usize> = Vec::new();
    let mut j: usize = 0;
    while j < s.len()
        invariant
            j <= s@.len(),
            r@ == s@.take(j as int),
        decreases s@.len() - j,
    {
        let x = s[j];
        r.push(x);
        proof {
            assert(s@.take(j + 1) =~= s@.take(j as int).push(s@[j as int]));
        }
        j = j + 1;
    }
    proof {
        assert(s@.take(s@.len() as int) =~= s@);
    }
    r
}

/// Encode one snapshot against the previous one: compute the delta, let the
/// relabel heuristic improve it in extreme mode, and serialize the result.
/// Returns the record's bytes and the snapshot the next step must diff
/// against (the adopted snapshot).
pub fn encode_step(prev_mapping: &Vec<usize>, new_mapping: &Vec<usize>, extreme: bool) -> (r:
    Result<(Vec<u8>, Vec<usize>), EncodeError>)
    ensures
        match r {
            Ok(pair) => {
                &&& snapshot_ok(new_mapping@)
                &&& pair.1@ == adopt_spec(prev_mapping@, new_mapping@, extreme)
                &&& pair.0@ == delta_bytes(delta_of(prev_mapping@, pair.1@))
            },
            Err(e) => snapshot_err(new_mapping@) == Some(e),
        },
{
    let ghost a = prev_mapping@;
    let ghost b = new_mapping@;
    match check_snapshot(new_mapping) {
        Err(e) => {
            return Err(e);
        },
        Ok(()) => {},
    }
    let (delta, _written) = compute_diff(prev_mapping, new_mapping);
    let ghost d = delta@;
    if extreme {
        let mut counter: usize = 0;
        let mut first: usize = 0;
        let mut second: usize = 0;
        let mut i: usize = 0;
        while i < delta.diff.len()
            invariant
                a == prev_mapping@,
                b == new_mapping@,
                snapshot_ok(b),
                d == delta@,
                d == delta_of(a, b),
                i <= d.len(),
                counter <= i,
                counter == nonempty_count_upto(d, i as int),
                counter == 0 ==> first_nonempty_from(d, 0) == first_nonempty_from(d, i as int),
                counter >= 1 ==> first < i && first as int == first_nonempty_from(d, 0),
                counter == 1 ==> first_nonempty_from(d, first as int + 1) == first_nonempty_from(
                    d,
                    i as int,
                ),
                counter >= 2 ==> second < i && second as int == first_nonempty_from(
                    d,
                    first as int + 1,
                ),
            decreases d.len() - i,
        {
            if delta.diff[i].len() > 0 {
                if counter == 0 {
                    first = i;
                } else if counter == 1 {
                    second = i;
                }
                counter = counter + 1;
            }
            i = i + 1;
        }
        if counter == 2 {
            proof {
                crate::diff::lemma_delta_width_bounded(a, b, MAX_LABEL as int, b.len() as int);
                crate::diff::lemma_delta_width_min(a, b, b.len() as int);
                assert(delta_width(a, b) <= MAX_LABEL + 1);
                assert(d.len() == delta_width(a, b) as nat);
                assert(d.len() <= MAX_LABEL + 1);
                assert(first <= MAX_LABEL && second <= MAX_LABEL);
            }
            let mut swapped: Vec<usize> = Vec::new();
            let mut j: usize = 0;
            while j < new_mapping.len()
                invariant
                    a == prev_mapping@,
                    b == new_mapping@,
                    snapshot_ok(b),
                    first <= MAX_LABEL,
                    second <= MAX_LABEL,
                    j <= b.len(),
                    swapped@.len() == j,
                    forall|k: int| 0 <= k < j ==> swapped@[k] == swap_labels(b, first, second)[k],
                decreases b.len() - j,
            {
                let lab = new_mapping[j];
                if lab == first {
                    swapped.push(second);
                } else if lab == second {
                    swapped.push(first);
                } else {
                    swapped.push(lab);
                }
                j = j + 1;
            }
            proof {
                assert(swapped@ =~= swap_labels(b, first, second));
                assert(snapshot_ok(swapped@)) by {
                    assert(forall|k: int| 0 <= k < swapped@.len()
                        ==> #[trigger] swapped@[k] <= MAX_LABEL);
                }
            }
            let alt_count = count_changes(prev_mapping, &swapped);
            let base_count = count_changes(prev_mapping, new_mapping);
            if alt_count < base_count {
                let (alt_delta, _alt_written) = compute_diff(prev_mapping, &swapped);
                proof {
                    lemma_wire_ok(a, swapped@);
                }
                match export_diff(&alt_delta) {
                    Ok(bytes) => {
                        return Ok((bytes, swapped));
                    },
                    Err(e) => {
                        proof {
                            assert(false);
                        }
                        return Err(e);
                    },
                }
            }
        }
    }
    proof {
        lemma_wire_ok(a, b);
    }
    match export_diff(&delta) {
        Ok(bytes) => {
            let adopted = clone_snapshot(new_mapping);
            Ok((bytes, adopted))
        },
        Err(e) => {
            proof {
                assert(false);
            }
            Err(e)
        },
    }
}

/// The snapshots a vector of snapshot vectors stands for.
pub open spec fn snapshot_views(ss: Seq<Vec<usize>>) -> Seq<Seq<usize>> {
    ss.map_values(|v: Vec<usize>| v@)
}

/// Encode a whole sequence of snapshots into one byte stream, one record per
/// snapshot.  The first record carries the whole first snapshot (diffed
/// against the empty snapshot); each further record carries the changes
/// against the previously adopted snapshot.
pub fn encode(snapshots: &Vec<Vec<usize>>, extreme: bool) -> (r: Result<Vec<u8>, EncodeError>)
    ensures
        match r {
            Ok(bytes) => snapshots_err(snapshot_views(snapshots@), 0) is None && bytes@
                == encode_all(Seq::empty(), snapshot_views(snapshots@), 0, extreme),
            Err(e) => snapshots_err(snapshot_views(snapshots@), 0) == Some(e),
        },
{
    let ghost ss = snapshot_views(snapshots@);
    let mut i: usize = 0;
    while i < snapshots.len()
        invariant
            ss == snapshot_views(snapshots@),
            i <= ss.len(),
            forall|j: int| 0 <= j < i ==> #[trigger] snapshot_err(ss[j]) is None,
            snapshots_err(ss, 0) == snapshots_err(ss, i as int),
        decreases ss.len() - i,
    {
        match check_snapshot(&snapshots[i]) {
            Err(e) => {
                return Err(e);
            },
            Ok(()) => {},
        }
        i = i + 1;
    }
    let mut prev: Vec<usize> = Vec::new();
    let mut out: Vec<u8> = Vec::new();
    let mut step: usize = 0;
    while step < snapshots.len()
        invariant
            ss == snapshot_views(snapshots@),
            step <= ss.len(),
            forall|j: int| 0 <= j < ss.len() ==> #[trigger] snapshot_err(ss[j]) is None,
            prev@ == prev_at(ss, step as int, extreme),
            encode_all(Seq::empty(), ss, 0, extreme) == out@ + encode_all(
                prev@,
                ss,
                step as int,
                extreme,
            ),
        decreases ss.len() - step,
    {
        let ghost prev0 = prev@;
        match encode_step(&prev, &snapshots[step], extreme) {
            Ok(pair) => {
                let (mut bytes, adopted) = pair;
                proof {
                    assert(adopted@ == adopt_spec(prev0, ss[step as int], extreme));
                    assert(encode_all(prev0, ss, step as int, extreme) == delta_bytes(
                        delta_of(prev0, adopted@),
                    ) + encode_all(adopted@, ss, step + 1, extreme));
                }
                out.append(&mut bytes);
                prev = adopted;
                proof {
                    assert(encode_all(Seq::empty(), ss, 0, extreme) =~= out@ + encode_all(
                        prev@,
                        ss,
                        step + 1,
                        extreme,
                    ));
                }
            },
            Err(e) => {
                proof {
                    assert(snapshot_err(ss[step as int]) is None);
                    assert(false);
                }
                return Err(e);
            },
        }
        step = step + 1;
    }
    proof {
        assert(encode_all(prev@, ss, ss.len() as int, extreme) =~= Seq::<u8>::empty());
        assert(out@ =~= encode_all(Seq::empty(), ss, 0, extreme));
    }
    Ok(out)
}


/// A stretch of empty partitions adds nothing to the non-empty count.
proof fn lemma_count_segment(d: Seq<Seq<usize>>, k: int, n: int)
    requires
        0 <= k <= n,
        forall|j: int| k <= j < n ==> #[trigger] d[j].len() == 0,
    ensures
        nonempty_count_upto(d, n) == nonempty_count_upto(d, k),
    decreases n - k,
{
    if k < n {
        lemma_count_segment(d, k, n - 1);
    }
}

/// What `first_nonempty_from` finds: a non-empty partition (when within
/// range) with nothing but empty partitions before it.
proof fn lemma_first_nonempty_props(d: Seq<Seq<usize>>, i: int)
    requires
        0 <= i <= d.len(),
    ensures
        ({
            let f = first_nonempty_from(d, i);
            &&& i <= f <= d.len()
            &&& (f < d.len() ==> d[f].len() > 0)
            &&& forall|j: int| i <= j < f ==> #[trigger] d[j].len() == 0
        }),
    decreases d.len() - i,
{
    if i < d.len() && d[i].len() == 0 {
        lemma_first_nonempty_props(d, i + 1);
    }
}

/// A delta touching exactly two partitions really has a first and a second
/// non-empty partition, in that order.
proof fn lemma_two_touched(d: Seq<Seq<usize>>)
    requires
        nonempty_count_upto(d, d.len() as int) == 2,
    ensures
        ({
            let x = first_nonempty_from(d, 0);
            let y = first_nonempty_from(d, x + 1);
            &&& 0 <= x < y < d.len()
            &&& d[x].len() > 0
            &&& d[y].len() > 0
        }),
{
    let n = d.len() as int;
    let x = first_nonempty_from(d, 0);
    lemma_first_nonempty_props(d, 0);
    if x >= n {
        lemma_count_segment(d, 0, n);
        assert(false);
    }
    lemma_count_segment(d, 0, x);
    assert(nonempty_count_upto(d, x + 1) == 1);
    let y = first_nonempty_from(d, x + 1);
    lemma_first_nonempty_props(d, x + 1);
    if y >= n {
        lemma_count_segment(d, x + 1, n);
        assert(false);
    }
}

/// Whatever the relabel heuristic adopts is again an acceptable snapshot of
/// the same length.
pub proof fn lemma_adopt_ok(prev: Seq<usize>, cur: Seq<usize>, extreme: bool)
    requires
        snapshot_ok(cur),
    ensures
        snapshot_ok(adopt_spec(prev, cur, extreme)),
        adopt_spec(prev, cur, extreme).len() == cur.len(),
{
    if extreme {
        let d = delta_of(prev, cur);
        if nonempty_count_upto(d, d.len() as int) == 2 {
            lemma_two_touched(d);
            crate::diff::lemma_delta_width_bounded(prev, cur, MAX_LABEL as int, cur.len() as int);
            crate::diff::lemma_delta_width_min(prev, cur, cur.len() as int);
            let x = first_nonempty_from(d, 0);
            let y = first_nonempty_from(d, x + 1);
            assert(d.len() == delta_width(prev, cur) as nat);
            assert(x <= MAX_LABEL && y <= MAX_LABEL);
            let sw = swap_labels(cur, x as usize, y as usize);
            assert(snapshot_ok(sw)) by {
                assert(forall|k: int| 0 <= k < sw.len() ==> #[trigger] sw[k] <= MAX_LABEL);
            }
        }
    }
}

/// Every snapshot the encoder carries forward is acceptable, and keeps the
/// input snapshot's length.
pub proof fn lemma_prev_at_ok(ss: Seq<Seq<usize>>, i: int, extreme: bool)
    requires
        0 <= i <= ss.len(),
        forall|j: int| 0 <= j < ss.len() ==> snapshot_ok(#[trigger] ss[j]),
    ensures
        snapshot_ok(prev_at(ss, i, extreme)),
        prev_at(ss, i, extreme).len() == if i <= 0 {
            0int
        } else {
            ss[i - 1].len() as int
        },
    decreases i,
{
    if i > 0 {
        lemma_prev_at_ok(ss, i - 1, extreme);
        lemma_adopt_ok(prev_at(ss, i - 1, extreme), ss[i - 1], extreme);
    } else {
        assert(prev_at(ss, i, extreme) == Seq::<usize>::empty());
        assert(snapshot_ok(Seq::<usize>::empty()));
    }
}

} // verus!
