//! The codec's central guarantees: applying a delta to the snapshot it was
//! computed against reproduces the new snapshot, and decoding an encoded
//! stream reproduces every adopted snapshot exactly.

use vstd::prelude::*;

use crate::diff::{
    changed, delta_nodes, delta_of, delta_width, lemma_delta_covers, lemma_delta_last_nonempty,
    lemma_delta_membership, lemma_delta_width_min, lemma_push_has, Diff,
};
use crate::decode::{
    decode_spec, init_decoder, lemma_run_split, spec_assign, spec_run, spec_step, SpecDecoder,
    SpecRecord,
};
use crate::encode::{
    adopt_spec, be_bytes, delta_bytes, enc_from, encode_all, lemma_adopt_ok,
    lemma_delta_wire_bounds, lemma_prev_at_ok, node_bytes, prev_at, snapshot_ok, END_LOW,
    MARKER_HIGH, MAX_LABEL, MAX_NODE_ID, SKIP_LOW,
};

verus! {

/// A snapshot's labels as the decoder stores them: one byte each.
pub open spec fn labels_of(s: Seq<usize>) -> Seq<u8> {
    s.map_values(|x: usize| x as u8)
}

/// Assign every node of `ns` the label `lab`, in order, zero-extending the
/// snapshot on demand: what the decoder does to its snapshot while reading
/// one partition's nodes.
pub open spec fn apply_nodes(m: Seq<u8>, ns: Seq<usize>, lab: u8) -> Seq<u8>
    decreases ns.len(),
{
    if ns.len() == 0 {
        m
    } else {
        apply_nodes(spec_assign(m, ns[0] as int, lab), ns.drop_first(), lab)
    }
}

/// Apply partitions `i..` of delta `d` to snapshot `m`: what the decoder does
/// to its snapshot over one whole record.
pub open spec fn apply_from(m: Seq<u8>, d: Seq<Seq<usize>>, i: int) -> Seq<u8>
    decreases d.len() - i,
{
    if i < 0 || i >= d.len() {
        m
    } else {
        apply_from(apply_nodes(m, d[i], i as u8), d, i + 1)
    }
}

/// Append every node of `ns` to partition `p` of the accumulating delta: what
/// the decoder does to its delta while reading one partition's nodes.
pub open spec fn acc_nodes(acc: Seq<Seq<usize>>, ns: Seq<usize>, p: int) -> Seq<Seq<usize>>
    decreases ns.len(),
{
    if ns.len() == 0 {
        acc
    } else {
        acc_nodes(Diff::spec_add(acc, p, ns[0]), ns.drop_first(), p)
    }
}

/// Accumulate partitions `i..` of delta `d`: what the decoder's delta becomes
/// over one whole record.
pub open spec fn acc_from(acc: Seq<Seq<usize>>, d: Seq<Seq<usize>>, i: int) -> Seq<Seq<usize>>
    decreases d.len() - i,
{
    if i < 0 || i >= d.len() {
        acc
    } else {
        acc_from(acc_nodes(acc, d[i], i), d, i + 1)
    }
}

/// The value node `n` must hold after the groups below `i` of the delta
/// between `a` and `b` were applied, and, within group `i`, the first `k`
/// listed nodes.
pub open spec fn applied_label(
    a: Seq<usize>,
    b: Seq<usize>,
    i: int,
    k: int,
    n: int,
) -> u8 {
    if changed(a, b, n) && (b[n] < i || (b[n] == i && delta_nodes(a, b, i).take(k).contains(
        n as usize,
    ))) {
        b[n] as u8
    } else if n < a.len() {
        a[n] as u8
    } else {
        0u8
    }
}

/// The mapping invariant while a record's groups are applied.
pub open spec fn mid_ok(a: Seq<usize>, b: Seq<usize>, m: Seq<u8>, i: int, k: int) -> bool {
    &&& a.len() <= m.len() <= b.len()
    &&& forall|n: int| 0 <= n < m.len() ==> m[n] == applied_label(a, b, i, k, n)
    &&& forall|n: int| 0 <= n < b.len() && changed(a, b, n) && (b[n] < i || (b[n] == i
        && delta_nodes(a, b, i).take(k).contains(n as usize))) ==> n < m.len()
}

proof fn lemma_apply_group(a: Seq<usize>, b: Seq<usize>, m: Seq<u8>, i: int, k: int)
    requires
        0 <= i,
        a.len() <= b.len(),
        b.len() <= 65534,
        forall|n: int| 0 <= n < b.len() ==> b[n] <= 255,
        0 <= k <= delta_nodes(a, b, i).len(),
        mid_ok(a, b, m, i, k),
    ensures
        mid_ok(
            a,
            b,
            apply_nodes(m, delta_nodes(a, b, i).skip(k), i as u8),
            i,
            delta_nodes(a, b, i).len() as int,
        ),
    decreases delta_nodes(a, b, i).len() - k,
{
    let ns = delta_nodes(a, b, i);
    if k == ns.len() {
        assert(ns.skip(k) =~= Seq::<usize>::empty());
        assert(apply_nodes(m, ns.skip(k), i as u8) == m);
    } else {
        let n0 = ns[k];
        lemma_delta_membership(a, b, i, b.len() as int, n0);
        assert(ns.contains(n0)) by {
            assert(ns[k] == n0);
        }
        assert(changed(a, b, n0 as int) && b[n0 as int] == i);
        assert(n0 < b.len());
        let m1 = spec_assign(m, n0 as int, i as u8);
        let grown = if n0 < m.len() {
            m
        } else {
            m + Seq::new((n0 + 1 - m.len()) as nat, |x: int| 0u8)
        };
        assert(m1 == grown.update(n0 as int, i as u8));
        assert(ns.take(k + 1) =~= ns.take(k).push(n0));
        // the invariant moves from k to k + 1
        assert forall|n: int| 0 <= n < m1.len() implies m1[n] == applied_label(a, b, i, k + 1, n)
            by {
            lemma_push_has(ns.take(k), n0, n as usize);
            if n == n0 as int {
                assert(m1[n] == i as u8);
                assert(ns.take(k + 1).contains(n as usize));
            } else if n < m.len() {
                assert(m1[n] == m[n]);
                assert(applied_label(a, b, i, k + 1, n) == applied_label(a, b, i, k, n));
            } else {
                // a zero-filled slot: not yet assigned, so its expected label
                // is still the default
                assert(m1[n] == 0u8);
                assert(n >= m.len() >= a.len());
                if changed(a, b, n) && (b[n] < i || (b[n] == i && ns.take(k + 1).contains(
                    n as usize,
                ))) {
                    if b[n] < i {
                        assert(n < m.len());
                        assert(false);
                    } else {
                        assert(ns.take(k + 1).contains(n as usize));
                        assert(n as usize != n0);
                        assert(ns.take(k).contains(n as usize));
                        assert(n < m.len());
                        assert(false);
                    }
                }
                assert(applied_label(a, b, i, k + 1, n) == 0u8);
            }
        }
        assert forall|n: int| 0 <= n < b.len() && changed(a, b, n) && (b[n] < i || (b[n] == i
            && ns.take(k + 1).contains(n as usize))) implies n < m1.len() by {
            lemma_push_has(ns.take(k), n0, n as usize);
            if n == n0 as int {
                assert(n < m1.len());
            }
        }
        assert(mid_ok(a, b, m1, i, k + 1));
        assert(ns.skip(k).drop_first() =~= ns.skip(k + 1));
        assert(ns.skip(k)[0] == n0);
        assert(apply_nodes(m, ns.skip(k), i as u8) == apply_nodes(m1, ns.skip(k + 1), i as u8));
        lemma_apply_group(a, b, m1, i, k + 1);
    }
}

proof fn lemma_apply_from_general(a: Seq<usize>, b: Seq<usize>, m: Seq<u8>, i: int)
    requires
        0 <= i <= delta_of(a, b).len(),
        a.len() <= b.len(),
        b.len() <= 65534,
        forall|n: int| 0 <= n < b.len() ==> b[n] <= 255,
        mid_ok(a, b, m, i, 0),
    ensures
        mid_ok(a, b, apply_from(m, delta_of(a, b), i), delta_of(a, b).len() as int, 0),
    decreases delta_of(a, b).len() - i,
{
    let d = delta_of(a, b);
    if i < d.len() {
        let ns = delta_nodes(a, b, i);
        assert(d[i] == ns);
        assert(ns.skip(0) =~= ns);
        assert(ns.take(0) =~= Seq::<usize>::empty());
        lemma_apply_group(a, b, m, i, 0);
        let m1 = apply_nodes(m, d[i], i as u8);
        // at the group's end the membership condition collapses to the label
        // bound for the next group
        assert(mid_ok(a, b, m1, i + 1, 0)) by {
            assert forall|n: int| 0 <= n < b.len() && changed(a, b, n) implies ((b[n] < i || (b[n]
                == i && ns.take(ns.len() as int).contains(n as usize))) <==> b[n] < i + 1) by {
                lemma_delta_membership(a, b, i, b.len() as int, n as usize);
                assert(ns.take(ns.len() as int) =~= ns);
            }
            assert forall|n: int| 0 <= n < m1.len() implies m1[n] == applied_label(
                a,
                b,
                i + 1,
                0,
                n,
            ) by {
                assert(m1[n] == applied_label(a, b, i, ns.len() as int, n));
                if changed(a, b, n) {
                    assert(ns.take(ns.len() as int) =~= ns);
                    lemma_delta_membership(a, b, i, b.len() as int, n as usize);
                }
            }
            assert(delta_nodes(a, b, i + 1).take(0) =~= Seq::<usize>::empty());
        }
        lemma_apply_from_general(a, b, m1, i + 1);
    } else {
        assert(delta_nodes(a, b, i).take(0) =~= Seq::<usize>::empty());
    }
}

/// Delta correctness at the decoder: applying the delta between `a` and `b`
/// to `a`'s byte-label snapshot yields exactly `b`'s byte-label snapshot,
/// provided `b` covers `a` and its labels fit one byte.
pub proof fn lemma_apply_delta_bytes(a: Seq<usize>, b: Seq<usize>)
    requires
        a.len() <= b.len(),
        b.len() <= 65534,
        forall|n: int| 0 <= n < b.len() ==> b[n] <= 255,
    ensures
        apply_from(labels_of(a), delta_of(a, b), 0) == labels_of(b),
{
    let d = delta_of(a, b);
    let m0 = labels_of(a);
    assert(delta_nodes(a, b, 0).take(0) =~= Seq::<usize>::empty());
    assert(mid_ok(a, b, m0, 0, 0)) by {
        assert forall|n: int| 0 <= n < m0.len() implies m0[n] == applied_label(a, b, 0, 0, n) by {
            assert(m0[n] == a[n] as u8);
            if changed(a, b, n) && b[n] < 0 {
                assert(false);
            }
        }
    }
    lemma_apply_from_general(a, b, m0, 0);
    let fin = apply_from(m0, d, 0);
    assert(mid_ok(a, b, fin, d.len() as int, 0));
    // every changed node's label lies below the delta's width, so the final
    // condition collapses to "changed"
    assert forall|n: int| 0 <= n < b.len() && changed(a, b, n) implies n < fin.len() && fin[n]
        == b[n] as u8 by {
        lemma_delta_covers(a, b, n);
        assert(b[n] < d.len());
        assert(n < fin.len());
        assert(fin[n] == applied_label(a, b, d.len() as int, 0, n));
    }
    assert(fin.len() == b.len()) by {
        if b.len() > a.len() {
            assert(changed(a, b, b.len() - 1));
        }
    }
    assert forall|n: int| 0 <= n < fin.len() implies fin[n] == labels_of(b)[n] by {
        assert(fin[n] == applied_label(a, b, d.len() as int, 0, n));
        if !changed(a, b, n) {
            assert(n < a.len() && a[n] == b[n]);
        } else {
            lemma_delta_covers(a, b, n);
        }
    }
    assert(fin =~= labels_of(b));
}



proof fn lemma_run_two(s: SpecDecoder, b0: u8, b1: u8)
    ensures
        spec_run(s, seq![b0, b1]) == spec_step(spec_step(s, b0), b1),
{
    let bs = seq![b0, b1];
    assert(bs[0] == b0);
    assert(bs.drop_first() =~= seq![b1]);
    assert(spec_run(s, bs) == spec_run(spec_step(s, b0), bs.drop_first()));
    assert(seq![b1][0] == b1);
    assert(seq![b1].drop_first() =~= Seq::<u8>::empty());
    assert(spec_run(spec_step(s, b0), seq![b1]) == spec_run(
        spec_step(spec_step(s, b0), b1),
        seq![b1].drop_first(),
    ));
    assert(spec_run(spec_step(spec_step(s, b0), b1), Seq::<u8>::empty()) == spec_step(
        spec_step(s, b0),
        b1,
    ));
}

proof fn lemma_run_three(s: SpecDecoder, b0: u8, b1: u8, b2: u8)
    ensures
        spec_run(s, seq![b0, b1, b2]) == spec_step(spec_step(spec_step(s, b0), b1), b2),
{
    let bs = seq![b0, b1, b2];
    assert(bs[0] == b0);
    assert(bs.drop_first() =~= seq![b1, b2]);
    assert(spec_run(s, bs) == spec_run(spec_step(s, b0), bs.drop_first()));
    lemma_run_two(spec_step(s, b0), b1, b2);
}

proof fn lemma_decode_nodes(s: SpecDecoder, ns: Seq<usize>)
    requires
        s.ok,
        s.pending is None,
        !s.awaiting_skip,
        forall|k: int| 0 <= k < ns.len() ==> #[trigger] ns[k] <= 65533,
    ensures
        spec_run(s, node_bytes(ns)) == (SpecDecoder {
            mapping: apply_nodes(s.mapping, ns, s.district),
            delta: acc_nodes(s.delta, ns, s.district as int),
            ..s
        }),
    decreases ns.len(),
{
    if ns.len() == 0 {
        assert(spec_run(s, node_bytes(ns)) == s);
        assert(s =~= SpecDecoder {
            mapping: apply_nodes(s.mapping, ns, s.district),
            delta: acc_nodes(s.delta, ns, s.district as int),
            ..s
        });
    } else {
        let n = ns[0];
        assert(n <= 65533);
        let hi = (n / 256) as u8;
        let lo = (n % 256) as u8;
        assert(hi as int * 256 + lo as int == n) by {
            assert(n / 256 <= 255);
        }
        let s1 = spec_step(s, hi);
        let s2 = spec_step(s1, lo);
        assert(s2 =~= SpecDecoder {
            pending: None,
            mapping: spec_assign(s.mapping, n as int, s.district),
            delta: Diff::spec_add(s.delta, s.district as int, n),
            ..s
        });
        assert(be_bytes(n) =~= seq![hi, lo]);
        lemma_run_two(s, hi, lo);
        assert(spec_run(s, be_bytes(n)) == s2);
        lemma_run_split(s, be_bytes(n), node_bytes(ns.drop_first()));
        assert(node_bytes(ns) == be_bytes(n) + node_bytes(ns.drop_first()));
        assert forall|k: int| 0 <= k < ns.drop_first().len() implies #[trigger] ns.drop_first()[k]
            <= 65533 by {
            assert(ns.drop_first()[k] == ns[k + 1]);
        }
        lemma_decode_nodes(s2, ns.drop_first());
        assert(apply_nodes(s.mapping, ns, s.district) == apply_nodes(
            s2.mapping,
            ns.drop_first(),
            s.district,
        ));
        assert(acc_nodes(s.delta, ns, s.district as int) == acc_nodes(
            s2.delta,
            ns.drop_first(),
            s.district as int,
        ));
        assert(spec_run(s, node_bytes(ns)) =~= SpecDecoder {
            mapping: apply_nodes(s.mapping, ns, s.district),
            delta: acc_nodes(s.delta, ns, s.district as int),
            ..s
        });
    }
}

/// Decoding one record's bytes from a record boundary: the snapshot becomes
/// the delta's application, the finished record carries that snapshot and the
/// rebuilt delta, and the decoder stands at a fresh record boundary again.
proof fn lemma_decode_record(s: SpecDecoder, d: Seq<Seq<usize>>, i: int, q: int)
    requires
        s.ok,
        s.pending is None,
        !s.awaiting_skip,
        s.district as int == q,
        0 <= q <= i,
        q <= 255,
        0 <= i <= d.len(),
        forall|j: int| i <= j < d.len() && #[trigger] d[j].len() > 0 ==> j <= 255,
        forall|j: int, k: int|
            #![trigger d[j][k]]
            i <= j < d.len() && 0 <= k < d[j].len() ==> d[j][k] <= 65533,
    ensures
        spec_run(s, enc_from(d, i, q)) == (SpecDecoder {
            ok: true,
            pending: None,
            awaiting_skip: false,
            district: 0,
            mapping: apply_from(s.mapping, d, i),
            delta: seq![Seq::<usize>::empty()],
            records: s.records.push(
                SpecRecord {
                    mapping: apply_from(s.mapping, d, i),
                    delta: acc_from(s.delta, d, i),
                },
            ),
        }),
    decreases d.len() - i,
{
    if i >= d.len() {
        let s1 = spec_step(s, MARKER_HIGH);
        let s2 = spec_step(s1, END_LOW);
        assert(enc_from(d, i, q) =~= seq![MARKER_HIGH, END_LOW]);
        lemma_run_two(s, MARKER_HIGH, END_LOW);
        assert(spec_run(s, enc_from(d, i, q)) == s2);
        assert(s2 =~= SpecDecoder {
            ok: true,
            pending: None,
            awaiting_skip: false,
            district: 0,
            mapping: apply_from(s.mapping, d, i),
            delta: seq![Seq::<usize>::empty()],
            records: s.records.push(
                SpecRecord {
                    mapping: apply_from(s.mapping, d, i),
                    delta: acc_from(s.delta, d, i),
                },
            ),
        });
    } else if d[i].len() == 0 {
        assert(enc_from(d, i, q) == enc_from(d, i + 1, q));
        assert(apply_nodes(s.mapping, d[i], i as u8) == s.mapping);
        assert(acc_nodes(s.delta, d[i], i) == s.delta);
        lemma_decode_record(s, d, i + 1, q);
        assert(apply_from(s.mapping, d, i) == apply_from(s.mapping, d, i + 1));
        assert(acc_from(s.delta, d, i) == acc_from(s.delta, d, i + 1));
    } else {
        assert(i <= 255);
        assert forall|k: int| 0 <= k < d[i].len() implies #[trigger] d[i][k] <= 65533 by {
            assert(d[i][k] <= 65533);
        }
        if i == 0 {
            // the first partition needs no header; the cursor already sits at
            // zero
            lemma_decode_nodes(s, d[0]);
            let s4 = spec_run(s, node_bytes(d[0]));
            assert(s4.district == s.district);
            lemma_decode_record(s4, d, 1, 0);
            assert(enc_from(d, 0, q) =~= node_bytes(d[0]) + enc_from(d, 1, 0));
            lemma_run_split(s, node_bytes(d[0]), enc_from(d, 1, 0));
            assert(apply_from(s.mapping, d, 0) == apply_from(s4.mapping, d, 1));
            assert(acc_from(s.delta, d, 0) == acc_from(s4.delta, d, 1));
        } else {
            let cnt = (i - q) as u8;
            let s1 = spec_step(s, MARKER_HIGH);
            let s2 = spec_step(s1, SKIP_LOW);
            assert(s2 =~= SpecDecoder { pending: None, awaiting_skip: true, ..s });
            let s3 = spec_step(s2, cnt);
            assert(s.district as int + cnt as int == i);
            assert(s3 =~= SpecDecoder {
                pending: None,
                awaiting_skip: false,
                district: i as u8,
                ..s
            });
            let header = seq![MARKER_HIGH, SKIP_LOW, cnt];
            lemma_run_three(s, MARKER_HIGH, SKIP_LOW, cnt);
            assert(spec_run(s, header) == s3);
            lemma_decode_nodes(s3, d[i]);
            let s4 = spec_run(s3, node_bytes(d[i]));
            assert(s4.district as int == i);
            lemma_decode_record(s4, d, i + 1, i);
            assert(enc_from(d, i, q) == header + node_bytes(d[i]) + enc_from(d, i + 1, i));
            lemma_run_split(s, header, node_bytes(d[i]));
            lemma_run_split(s, header + node_bytes(d[i]), enc_from(d, i + 1, i));
            assert(spec_run(s, header + node_bytes(d[i])) == s4);
            assert(spec_run(s, enc_from(d, i, q)) == spec_run(s4, enc_from(d, i + 1, i)));
            assert(s4.mapping == apply_nodes(s.mapping, d[i], i as u8));
            assert(apply_from(s.mapping, d, i) == apply_from(s4.mapping, d, i + 1));
            assert(s4.delta == acc_nodes(s.delta, d[i], i));
            assert(acc_from(s.delta, d, i) == acc_from(s4.delta, d, i + 1));
        }
    }
}

proof fn lemma_acc_nodes_shape(acc: Seq<Seq<usize>>, ns: Seq<usize>, p: int)
    requires
        0 <= p,
        ns.len() > 0,
    ensures
        ({
            let padded = if p < acc.len() {
                acc
            } else {
                acc + Seq::new((p + 1 - acc.len()) as nat, |x: int| Seq::<usize>::empty())
            };
            acc_nodes(acc, ns, p) == padded.update(p, padded[p] + ns)
        }),
    decreases ns.len(),
{
    let padded = if p < acc.len() {
        acc
    } else {
        acc + Seq::new((p + 1 - acc.len()) as nat, |x: int| Seq::<usize>::empty())
    };
    let acc1 = Diff::spec_add(acc, p, ns[0]);
    assert(acc1 == padded.update(p, padded[p].push(ns[0])));
    if ns.len() == 1 {
        assert(ns.drop_first() =~= Seq::<usize>::empty());
        assert(acc_nodes(acc, ns, p) == acc_nodes(acc1, ns.drop_first(), p));
        assert(acc_nodes(acc1, Seq::<usize>::empty(), p) == acc1);
        assert(acc_nodes(acc, ns, p) == acc1);
        assert(padded[p] + ns =~= padded[p].push(ns[0]));
        assert(acc_nodes(acc, ns, p) =~= padded.update(p, padded[p] + ns));
    } else {
        lemma_acc_nodes_shape(acc1, ns.drop_first(), p);
        assert(p < acc1.len());
        assert(acc_nodes(acc, ns, p) == acc_nodes(acc1, ns.drop_first(), p));
        assert(acc1[p] == padded[p].push(ns[0]));
        assert(padded[p].push(ns[0]) + ns.drop_first() =~= padded[p] + ns);
        assert(acc1.update(p, acc1[p] + ns.drop_first()) =~= padded.update(p, padded[p] + ns));
    }
}

proof fn lemma_acc_rebuild_from(d: Seq<Seq<usize>>, acc: Seq<Seq<usize>>, i: int)
    requires
        0 <= i <= d.len(),
        1 <= acc.len(),
        acc.len() <= if i == 0 {
            1int
        } else {
            i
        },
        forall|p: int| 0 <= p < acc.len() ==> acc[p] == (if p < i {
            d[p]
        } else {
            Seq::<usize>::empty()
        }),
        forall|p: int| acc.len() <= p < i ==> #[trigger] d[p].len() == 0,
    ensures
        ({
            let f = acc_from(acc, d, i);
            &&& 1 <= f.len()
            &&& f.len() <= if d.len() == 0 {
                1int
            } else {
                d.len() as int
            }
            &&& forall|p: int| 0 <= p < f.len() ==> f[p] == (if p < d.len() {
                d[p]
            } else {
                Seq::<usize>::empty()
            })
            &&& forall|p: int| f.len() <= p < d.len() ==> #[trigger] d[p].len() == 0
        }),
    decreases d.len() - i,
{
    if i < d.len() {
        if d[i].len() == 0 {
            assert(acc_nodes(acc, d[i], i) == acc);
            assert(d[i] =~= Seq::<usize>::empty());
            lemma_acc_rebuild_from(d, acc, i + 1);
        } else {
            lemma_acc_nodes_shape(acc, d[i], i);
            let acc1 = acc_nodes(acc, d[i], i);
            let padded = if i < acc.len() {
                acc
            } else {
                acc + Seq::new((i + 1 - acc.len()) as nat, |x: int| Seq::<usize>::empty())
            };
            assert(padded[i] == Seq::<usize>::empty());
            assert(acc1.len() == if i < acc.len() {
                acc.len() as int
            } else {
                i + 1
            });
            assert(acc1.len() == i + 1) by {
                if i < acc.len() {
                    assert(acc.len() <= if i == 0 {
                        1int
                    } else {
                        i
                    });
                }
            }
            assert forall|p: int| 0 <= p < acc1.len() implies acc1[p] == (if p < i + 1 {
                d[p]
            } else {
                Seq::<usize>::empty()
            }) by {
                if p == i {
                    assert(acc1[p] =~= Seq::<usize>::empty() + d[i]);
                    assert(Seq::<usize>::empty() + d[i] =~= d[i]);
                } else if p < acc.len() {
                    assert(acc1[p] == acc[p]);
                } else {
                    assert(acc1[p] == Seq::<usize>::empty());
                    assert(d[p].len() == 0);
                }
            }
            lemma_acc_rebuild_from(d, acc1, i + 1);
        }
    }
}

/// The decoder rebuilds, record by record, exactly the delta the encoder
/// serialized.
proof fn lemma_acc_rebuild(a: Seq<usize>, b: Seq<usize>)
    ensures
        acc_from(seq![Seq::<usize>::empty()], delta_of(a, b), 0) == delta_of(a, b),
{
    let d = delta_of(a, b);
    lemma_delta_width_min(a, b, b.len() as int);
    assert(d.len() >= 1);
    lemma_acc_rebuild_from(d, seq![Seq::<usize>::empty()], 0);
    let f = acc_from(seq![Seq::<usize>::empty()], d, 0);
    lemma_delta_last_nonempty(a, b);
    if f.len() < d.len() {
        assert(d[d.len() - 1].len() == 0);
        assert(delta_width(a, b) == 1);
        assert(false);
    }
    assert(f =~= d);
}

proof fn lemma_round_trip_from(ss: Seq<Seq<usize>>, i: int, extreme: bool, s: SpecDecoder)
    requires
        0 <= i <= ss.len(),
        forall|j: int| 0 <= j < ss.len() ==> snapshot_ok(#[trigger] ss[j]),
        forall|j: int| 0 < j < ss.len() ==> #[trigger] ss[j - 1].len() <= ss[j].len(),
        s.ok,
        s.pending is None,
        !s.awaiting_skip,
        s.district == 0,
        s.delta == seq![Seq::<usize>::empty()],
        s.mapping == labels_of(prev_at(ss, i, extreme)),
    ensures
        ({
            let fin = spec_run(s, encode_all(prev_at(ss, i, extreme), ss, i, extreme));
            &&& fin.ok
            &&& fin.records.len() == s.records.len() + (ss.len() - i)
            &&& forall|j: int| 0 <= j < s.records.len() ==> fin.records[j] == s.records[j]
            &&& forall|j: int|
                #![trigger prev_at(ss, j, extreme)]
                i <= j < ss.len() ==> fin.records[s.records.len() + (j - i)] == (SpecRecord {
                    mapping: labels_of(prev_at(ss, j + 1, extreme)),
                    delta: delta_of(prev_at(ss, j, extreme), prev_at(ss, j + 1, extreme)),
                })
        }),
    decreases ss.len() - i,
{
    let prev = prev_at(ss, i, extreme);
    if i < ss.len() {
        let adopted = adopt_spec(prev, ss[i], extreme);
        assert(adopted == prev_at(ss, i + 1, extreme));
        lemma_prev_at_ok(ss, i, extreme);
        lemma_adopt_ok(prev, ss[i], extreme);
        assert(prev.len() <= adopted.len()) by {
            if i > 0 {
                assert(ss[i - 1].len() <= ss[i].len());
            }
        }
        let d = delta_of(prev, adopted);
        lemma_delta_wire_bounds(prev, adopted);
        assert(encode_all(prev, ss, i, extreme) == delta_bytes(d) + encode_all(
            adopted,
            ss,
            i + 1,
            extreme,
        ));
        lemma_decode_record(s, d, 0, 0);
        let s1 = spec_run(s, delta_bytes(d));
        lemma_run_split(s, delta_bytes(d), encode_all(adopted, ss, i + 1, extreme));
        // the applied delta gives the adopted snapshot's byte labels
        lemma_apply_delta_bytes(prev, adopted);
        assert(s1.mapping == labels_of(adopted));
        lemma_acc_rebuild(prev, adopted);
        assert(s1.records == s.records.push(
            SpecRecord { mapping: labels_of(adopted), delta: d },
        ));
        lemma_round_trip_from(ss, i + 1, extreme, s1);
        let fin = spec_run(s, encode_all(prev, ss, i, extreme));
        assert(fin == spec_run(s1, encode_all(adopted, ss, i + 1, extreme)));
        assert(fin.records.len() == s.records.len() + (ss.len() - i));
        assert forall|j: int| 0 <= j < s.records.len() implies fin.records[j] == s.records[j] by {
            assert(s1.records[j] == s.records[j]);
        }
        assert forall|j: int|
            #![trigger prev_at(ss, j, extreme)]
            i <= j < ss.len() implies fin.records[s.records.len() + (j - i)] == (SpecRecord {
            mapping: labels_of(prev_at(ss, j + 1, extreme)),
            delta: delta_of(prev_at(ss, j, extreme), prev_at(ss, j + 1, extreme)),
        }) by {
            if j == i {
                assert(fin.records[s1.records.len() - 1] == s1.records[s1.records.len() - 1]);
            } else {
                assert(fin.records[s1.records.len() + (j - (i + 1))] == (SpecRecord {
                    mapping: labels_of(prev_at(ss, j + 1, extreme)),
                    delta: delta_of(prev_at(ss, j, extreme), prev_at(ss, j + 1, extreme)),
                }));
            }
        }
    }
}

/// Round trip: encoding a sequence of acceptable snapshots with
/// non-decreasing lengths and decoding the stream reproduces, step by step,
/// exactly the snapshots the encoder adopted -- and with the relabel
/// heuristic off, exactly the input snapshots.  Each decoded record also
/// carries exactly the delta between consecutive adopted snapshots.
pub proof fn lemma_round_trip(ss: Seq<Seq<usize>>, extreme: bool)
    requires
        forall|j: int| 0 <= j < ss.len() ==> snapshot_ok(#[trigger] ss[j]),
        forall|j: int| 0 < j < ss.len() ==> #[trigger] ss[j - 1].len() <= ss[j].len(),
    ensures
        ({
            let fin = decode_spec(encode_all(Seq::empty(), ss, 0, extreme));
            &&& fin.ok
            &&& fin.records.len() == ss.len()
            &&& forall|i: int| 0 <= i < ss.len() ==> fin.records[i].mapping == labels_of(
                prev_at(ss, i + 1, extreme),
            )
            &&& forall|i: int| 0 <= i < ss.len() ==> fin.records[i].delta == delta_of(
                prev_at(ss, i, extreme),
                prev_at(ss, i + 1, extreme),
            )
            &&& !extreme ==> forall|i: int| 0 <= i < ss.len() ==> fin.records[i].mapping
                == labels_of(#[trigger] ss[i])
        }),
{
    let s0 = init_decoder();
    assert(labels_of(Seq::<usize>::empty()) =~= Seq::<u8>::empty());
    assert(prev_at(ss, 0, extreme) == Seq::<usize>::empty());
    lemma_round_trip_from(ss, 0, extreme, s0);
    let fin = decode_spec(encode_all(Seq::empty(), ss, 0, extreme));
    assert forall|i: int| 0 <= i < ss.len() implies fin.records[i] == (SpecRecord {
        mapping: labels_of(prev_at(ss, i + 1, extreme)),
        delta: delta_of(prev_at(ss, i, extreme), prev_at(ss, i + 1, extreme)),
    }) by {
        assert(fin.records[s0.records.len() + (i - 0)] == (SpecRecord {
            mapping: labels_of(prev_at(ss, i + 1, extreme)),
            delta: delta_of(prev_at(ss, i, extreme), prev_at(ss, i + 1, extreme)),
        }));
    }
    if !extreme {
        assert forall|i: int| 0 <= i < ss.len() implies fin.records[i].mapping == labels_of(
            #[trigger] ss[i],
        ) by {
            assert(prev_at(ss, i + 1, extreme) == adopt_spec(
                prev_at(ss, i, extreme),
                ss[i],
                extreme,
            ));
        }
    }
}

} // verus!
