//! The diff engine: which nodes moved between two snapshots, grouped by the
//! partition they moved to.
//!
//! A snapshot assigns one partition label to every node; node identifiers are
//! the positions in the snapshot.  The delta between a previous and a new
//! snapshot lists, for every partition label, the nodes whose label changed to
//! it (including nodes the previous snapshot did not cover yet), in the order
//! they are met while scanning the new snapshot.  Empty partitions are kept as
//! empty lists so that the wire format can address partitions positionally.

use vstd::prelude::*;

verus! {

/// Node `n` of snapshot `b` differs from snapshot `a`: either `a` does not
/// cover `n`, or the labels disagree.
pub open spec fn changed(a: Seq<usize>, b: Seq<usize>, n: int) -> bool {
    0 <= n < b.len() && (n >= a.len() || a[n] != b[n])
}

/// The changed nodes among the first `n` nodes of `b` whose new label is `p`,
/// in increasing node order.
pub open spec fn delta_nodes_upto(a: Seq<usize>, b: Seq<usize>, p: int, n: int) -> Seq<usize>
    decreases n,
{
    if n <= 0 {
        Seq::empty()
    } else {
        let rest = delta_nodes_upto(a, b, p, n - 1);
        if changed(a, b, n - 1) && b[n - 1] == p {
            rest.push((n - 1) as usize)
        } else {
            rest
        }
    }
}

/// The full list of changed nodes with new label `p`.
pub open spec fn delta_nodes(a: Seq<usize>, b: Seq<usize>, p: int) -> Seq<usize> {
    delta_nodes_upto(a, b, p, b.len() as int)
}

/// Width of the delta after scanning the first `n` nodes of `b`: it starts at
/// one empty partition and grows to `label + 1` whenever a changed node
/// carries a label at or beyond the current width.
pub open spec fn delta_width_upto(a: Seq<usize>, b: Seq<usize>, n: int) -> int
    decreases n,
{
    if n <= 0 {
        1
    } else {
        let w = delta_width_upto(a, b, n - 1);
        if changed(a, b, n - 1) && b[n - 1] + 1 > w {
            b[n - 1] + 1
        } else {
            w
        }
    }
}

/// Width of the full delta between `a` and `b`.
pub open spec fn delta_width(a: Seq<usize>, b: Seq<usize>) -> int {
    delta_width_upto(a, b, b.len() as int)
}

/// The delta between snapshots `a` and `b`: partition by partition, the
/// changed nodes newly labelled with that partition.
pub open spec fn delta_of(a: Seq<usize>, b: Seq<usize>) -> Seq<Seq<usize>> {
    Seq::new(delta_width(a, b) as nat, |p: int| delta_nodes(a, b, p))
}

/// Some node among the first `n` of `b` changed.
pub open spec fn any_changed_upto(a: Seq<usize>, b: Seq<usize>, n: int) -> bool {
    exists|k: int| 0 <= k < n && changed(a, b, k)
}

/// Some node of `b` changed.
pub open spec fn any_changed(a: Seq<usize>, b: Seq<usize>) -> bool {
    any_changed_upto(a, b, b.len() as int)
}

/// How many of the first `n` nodes of `b` changed.
pub open spec fn count_changed_upto(a: Seq<usize>, b: Seq<usize>, n: int) -> int
    decreases n,
{
    if n <= 0 {
        0
    } else {
        count_changed_upto(a, b, n - 1) + if changed(a, b, n - 1) {
            1int
        } else {
            0int
        }
    }
}

/// How many nodes of `b` changed: the number of node entries a delta holds,
/// and so the size of the record that will carry it.
pub open spec fn count_changed(a: Seq<usize>, b: Seq<usize>) -> int {
    count_changed_upto(a, b, b.len() as int)
}

/// A delta between two snapshots: `diff[p]` holds the nodes newly assigned to
/// partition `p`, in the order they were found.
#[derive(Debug, PartialEq, Eq)]
pub struct Diff {
    pub diff: Vec<Vec<usize>>,
}

impl View for Diff {
    type V = Seq<Seq<usize>>;

    open spec fn view(&self) -> Seq<Seq<usize>> {
        self.diff@.map_values(|nodes: Vec<usize>| nodes@)
    }
}

impl Diff {
    /// What `add` does to the abstract delta: pad with empty partitions up to
    /// `district`, then append `node` to partition `district`'s list.
    pub open spec fn spec_add(d: Seq<Seq<usize>>, district: int, node: usize) -> Seq<Seq<usize>> {
        let padded = if district < d.len() {
            d
        } else {
            d + Seq::new((district + 1 - d.len()) as nat, |i: int| Seq::<usize>::empty())
        };
        padded.update(district, padded[district].push(node))
    }

    /// A delta with a single, empty partition.
    pub fn new() -> (r: Diff)
        ensures
            r@ == seq![Seq::<usize>::empty()],
    {
        let mut diff: Vec<Vec<usize>> = Vec::new();
        diff.push(Vec::new());
        let r = Diff { diff };
        proof {
            assert(r@ =~= seq![Seq::<usize>::empty()]);
        }
        r
    }

    /// A delta with `capacity` empty partitions.
    pub fn with_capacity(capacity: usize) -> (r: Diff)
        ensures
            r@.len() == capacity,
            forall|p: int| 0 <= p < capacity ==> r@[p] == Seq::<usize>::empty(),
    {
        let mut diff: Vec<Vec<usize>> = Vec::new();
        let mut i: usize = 0;
        while i < capacity
            invariant
                i <= capacity,
                diff@.len() == i,
                forall|p: int| 0 <= p < i ==> diff@[p]@ == Seq::<usize>::empty(),
            decreases capacity - i,
        {
            diff.push(Vec::new());
            i = i + 1;
        }
        Diff { diff }
    }

    /// Append `node` to partition `district`'s list, growing the delta with
    /// empty partitions on demand.
    pub fn add(&mut self, district: usize, node: usize)
        requires
            district < usize::MAX,
        ensures
            final(self)@ == Self::spec_add(old(self)@, district as int, node),
    {
        let ghost orig = self@;
        while self.diff.len() <= district
            invariant
                district < usize::MAX,
                self@.len() >= orig.len(),
                self@.len() == orig.len() || self@.len() <= district + 1,
                forall|p: int| 0 <= p < orig.len() ==> self@[p] == orig[p],
                forall|p: int| orig.len() <= p < self@.len() ==> self@[p] == Seq::<usize>::empty(),
            decreases district + 1 - self.diff.len(),
        {
            let ghost pre = self@;
            self.diff.push(Vec::new());
            proof {
                assert(self@ =~= pre.push(Seq::<usize>::empty()));
            }
        }
        proof {
            if orig.len() <= district {
                assert(self@ =~= orig + Seq::new(
                    (district + 1 - orig.len()) as nat,
                    |i: int| Seq::<usize>::empty(),
                ));
            } else {
                assert(self@ =~= orig);
            }
        }
        let ghost padded = self@;
        let mut nodes = self.diff.remove(district);
        nodes.push(node);
        self.diff.insert(district, nodes);
        proof {
            assert(self@ =~= padded.update(district as int, padded[district as int].push(node)));
        }
    }

    /// Empty every partition's list, keeping the width.
    pub fn reset(&mut self)
        ensures
            final(self)@.len() == old(self)@.len(),
            forall|p: int| 0 <= p < final(self)@.len() ==> final(self)@[p] == Seq::<usize>::empty(),
    {
        let n = self.diff.len();
        let mut i: usize = 0;
        while i < n
            invariant
                i <= n,
                self@.len() == n,
                forall|p: int| 0 <= p < i ==> self@[p] == Seq::<usize>::empty(),
            decreases n - i,
        {
            let ghost pre = self@;
            let mut nodes = self.diff.remove(i);
            nodes.clear();
            self.diff.insert(i, nodes);
            proof {
                assert(self@ =~= pre.update(i as int, Seq::<usize>::empty()));
            }
            i = i + 1;
        }
    }
}

/// Compute the delta between `prev_mapping` and `new_mapping`, and whether any
/// node changed at all.
pub fn compute_diff(prev_mapping: &Vec<usize>, new_mapping: &Vec<usize>) -> (r: (Diff, bool))
    requires
        forall|n: int| 0 <= n < new_mapping@.len() ==> new_mapping@[n] < usize::MAX,
    ensures
        r.0@ == delta_of(prev_mapping@, new_mapping@),
        r.1 == any_changed(prev_mapping@, new_mapping@),
{
    let ghost a = prev_mapping@;
    let ghost b = new_mapping@;
    let mut delta = Diff::new();
    let mut written = false;
    let mut node: usize = 0;
    while node < new_mapping.len()
        invariant
            forall|n: int| 0 <= n < b.len() ==> b[n] < usize::MAX,
            a == prev_mapping@,
            b == new_mapping@,
            node <= b.len(),
            delta@.len() == delta_width_upto(a, b, node as int),
            forall|p: int| 0 <= p < delta@.len() ==> delta@[p] == delta_nodes_upto(
                a,
                b,
                p,
                node as int,
            ),
            forall|p: int| p >= delta@.len() ==> #[trigger] delta_nodes_upto(a, b, p, node as int)
                == Seq::<usize>::empty(),
            written == any_changed_upto(a, b, node as int),
        decreases b.len() - node,
    {
        let district = new_mapping[node];
        let ghost w0 = delta@.len() as int;
        let differs = node >= prev_mapping.len() || prev_mapping[node] != district;
        proof {
            assert(differs == changed(a, b, node as int));
        }
        if differs {
            written = true;
            delta.add(district, node);
            proof {
                if district as int >= w0 {
                    assert(delta@.len() == district + 1);
                } else {
                    assert(delta@.len() == w0);
                }
                assert(delta@.len() == delta_width_upto(a, b, node + 1));
                assert forall|p: int| 0 <= p < delta@.len() implies delta@[p]
                    == delta_nodes_upto(a, b, p, node + 1) by {
                    if p == district as int {
                        assert(delta@[p] == delta_nodes_upto(a, b, p, node as int).push(node));
                    } else {
                        assert(delta_nodes_upto(a, b, p, node + 1) == delta_nodes_upto(
                            a,
                            b,
                            p,
                            node as int,
                        ));
                    }
                }
                assert forall|p: int| p >= delta@.len() implies #[trigger] delta_nodes_upto(
                    a,
                    b,
                    p,
                    node + 1,
                ) == Seq::<usize>::empty() by {
                    assert(delta_nodes_upto(a, b, p, node + 1) == delta_nodes_upto(
                        a,
                        b,
                        p,
                        node as int,
                    ));
                }
                assert(any_changed_upto(a, b, node + 1)) by {
                    assert(changed(a, b, node as int));
                }
            }
        } else {
            proof {
                assert forall|p: int| 0 <= p < delta@.len() implies delta@[p]
                    == delta_nodes_upto(a, b, p, node + 1) by {
                    assert(delta_nodes_upto(a, b, p, node + 1) == delta_nodes_upto(
                        a,
                        b,
                        p,
                        node as int,
                    ));
                }
                assert forall|p: int| p >= delta@.len() implies #[trigger] delta_nodes_upto(
                    a,
                    b,
                    p,
                    node + 1,
                ) == Seq::<usize>::empty() by {
                    assert(delta_nodes_upto(a, b, p, node + 1) == delta_nodes_upto(
                        a,
                        b,
                        p,
                        node as int,
                    ));
                }
                assert(delta_width_upto(a, b, node + 1) == delta_width_upto(a, b, node as int));
                assert(written == any_changed_upto(a, b, node + 1)) by {
                    if any_changed_upto(a, b, node + 1) && !any_changed_upto(a, b, node as int) {
                        let k = choose|k: int| 0 <= k < node + 1 && changed(a, b, k);
                        assert(k == node as int);
                        assert(false);
                    }
                }
            }
        }
        node = node + 1;
    }
    proof {
        assert(delta@ =~= delta_of(a, b));
    }
    (delta, written)
}


/// Count the nodes whose label differs between the two snapshots (or that are
/// new in `new_mapping`).
pub fn count_changes(prev_mapping: &Vec<usize>, new_mapping: &Vec<usize>) -> (r: usize)
    ensures
        r == count_changed(prev_mapping@, new_mapping@),
{
    let ghost a = prev_mapping@;
    let ghost b = new_mapping@;
    let mut count: usize = 0;
    let mut node: usize = 0;
    while node < new_mapping.len()
        invariant
            a == prev_mapping@,
            b == new_mapping@,
            node <= b.len(),
            count == count_changed_upto(a, b, node as int),
            count <= node,
        decreases b.len() - node,
    {
        if node >= prev_mapping.len() || prev_mapping[node] != new_mapping[node] {
            count = count + 1;
        }
        node = node + 1;
    }
    count
}

/// A partition's list only holds nodes below the scan bound.
pub proof fn lemma_delta_nodes_bound(a: Seq<usize>, b: Seq<usize>, p: int, n: int)
    requires
        n <= usize::MAX,
    ensures
        forall|k: int| 0 <= k < delta_nodes_upto(a, b, p, n).len()
            ==> delta_nodes_upto(a, b, p, n)[k] < n,
    decreases n,
{
    if n > 0 {
        lemma_delta_nodes_bound(a, b, p, n - 1);
        let rest = delta_nodes_upto(a, b, p, n - 1);
        let s = delta_nodes_upto(a, b, p, n);
        if changed(a, b, n - 1) && b[n - 1] == p {
            assert(s == rest.push((n - 1) as usize));
            assert forall|k: int| 0 <= k < s.len() implies s[k] < n by {
                if k < rest.len() {
                    assert(s[k] == rest[k]);
                } else {
                    assert(s[k] == (n - 1) as usize);
                }
            }
        } else {
            assert(s == rest);
        }
    }
}

/// A partition's list is strictly increasing: nodes appear in scan order.
pub proof fn lemma_delta_nodes_sorted(a: Seq<usize>, b: Seq<usize>, p: int, n: int)
    requires
        n <= usize::MAX,
    ensures
        forall|i: int, j: int| 0 <= i < j < delta_nodes_upto(a, b, p, n).len()
            ==> delta_nodes_upto(a, b, p, n)[i] < delta_nodes_upto(a, b, p, n)[j],
    decreases n,
{
    if n > 0 {
        lemma_delta_nodes_sorted(a, b, p, n - 1);
        lemma_delta_nodes_bound(a, b, p, n - 1);
        let rest = delta_nodes_upto(a, b, p, n - 1);
        let s = delta_nodes_upto(a, b, p, n);
        if changed(a, b, n - 1) && b[n - 1] == p {
            assert(s == rest.push((n - 1) as usize));
            assert forall|i: int, j: int| 0 <= i < j < s.len() implies s[i] < s[j] by {
                if j < rest.len() {
                    assert(s[i] == rest[i] && s[j] == rest[j]);
                } else {
                    assert(s[i] == rest[i] && s[j] == (n - 1) as usize);
                }
            }
        } else {
            assert(s == rest);
        }
    }
}

/// A node stands in a partition's list exactly when it changed to that label
/// within the scanned range.
pub proof fn lemma_delta_membership(a: Seq<usize>, b: Seq<usize>, p: int, n: int, m: usize)
    requires
        n <= usize::MAX,
    ensures
        delta_nodes_upto(a, b, p, n).contains(m) <==> (m < n && changed(a, b, m as int) && b[
            m as int
        ] == p),
    decreases n,
{
    if n <= 0 {
        assert(!delta_nodes_upto(a, b, p, n).contains(m));
    } else {
        lemma_delta_membership(a, b, p, n - 1, m);
        let rest = delta_nodes_upto(a, b, p, n - 1);
        let s = delta_nodes_upto(a, b, p, n);
        if changed(a, b, n - 1) && b[n - 1] == p {
            assert(s == rest.push((n - 1) as usize));
            if s.contains(m) {
                let i = choose|i: int| 0 <= i < s.len() && s[i] == m;
                if i < rest.len() {
                    assert(rest[i] == m);
                    assert(rest.contains(m));
                } else {
                    assert(m == (n - 1) as usize);
                }
            }
            if rest.contains(m) {
                let i = choose|i: int| 0 <= i < rest.len() && rest[i] == m;
                assert(s[i] == m);
                assert(s.contains(m));
            }
            if m == (n - 1) as usize {
                assert(s[rest.len() as int] == m);
                assert(s.contains(m));
            }
        } else {
            assert(s == rest);
        }
    }
}

/// The delta's width never shrinks as the scan advances.
pub proof fn lemma_delta_width_monotone(a: Seq<usize>, b: Seq<usize>, n1: int, n2: int)
    requires
        n1 <= n2,
    ensures
        delta_width_upto(a, b, n1) <= delta_width_upto(a, b, n2),
    decreases n2 - n1,
{
    if n1 < n2 {
        lemma_delta_width_monotone(a, b, n1, n2 - 1);
    }
}

/// The delta's width is at least one.
pub proof fn lemma_delta_width_min(a: Seq<usize>, b: Seq<usize>, n: int)
    ensures
        delta_width_upto(a, b, n) >= 1,
    decreases n,
{
    if n > 0 {
        lemma_delta_width_min(a, b, n - 1);
    }
}

/// Every changed node's new label lies inside the delta's width.
pub proof fn lemma_delta_covers(a: Seq<usize>, b: Seq<usize>, m: int)
    requires
        changed(a, b, m),
    ensures
        b[m] + 1 <= delta_width(a, b),
{
    assert(delta_width_upto(a, b, m + 1) >= b[m] + 1);
    lemma_delta_width_monotone(a, b, m + 1, b.len() as int);
}

/// A partition's list keeps its entries as the scan advances.
proof fn lemma_delta_nodes_len_monotone(a: Seq<usize>, b: Seq<usize>, p: int, n1: int, n2: int)
    requires
        n1 <= n2,
    ensures
        delta_nodes_upto(a, b, p, n1).len() <= delta_nodes_upto(a, b, p, n2).len(),
    decreases n2 - n1,
{
    if n1 < n2 {
        lemma_delta_nodes_len_monotone(a, b, p, n1, n2 - 1);
    }
}

/// Unless the delta is a single empty partition, its last partition is
/// non-empty: the width is exactly as large as the largest changed label asks.
pub proof fn lemma_delta_last_nonempty(a: Seq<usize>, b: Seq<usize>)
    ensures
        delta_width(a, b) == 1 || delta_nodes(a, b, delta_width(a, b) - 1).len() > 0,
{
    lemma_delta_last_nonempty_upto(a, b, b.len() as int);
}

proof fn lemma_delta_last_nonempty_upto(a: Seq<usize>, b: Seq<usize>, n: int)
    ensures
        delta_width_upto(a, b, n) == 1 || delta_nodes_upto(a, b, delta_width_upto(a, b, n) - 1, n)
            .len() > 0,
    decreases n,
{
    if n > 0 {
        lemma_delta_last_nonempty_upto(a, b, n - 1);
        let w0 = delta_width_upto(a, b, n - 1);
        let w = delta_width_upto(a, b, n);
        if changed(a, b, n - 1) && b[n - 1] + 1 > w0 {
            assert(w == b[n - 1] + 1);
            assert(delta_nodes_upto(a, b, w - 1, n) == delta_nodes_upto(a, b, w - 1, n - 1).push(
                (n - 1) as usize,
            ));
        } else {
            if w != 1 {
                lemma_delta_nodes_len_monotone(a, b, w - 1, n - 1, n);
            }
        }
    }
}

/// Delta correctness: a node stands in a partition's list exactly when it
/// changed to that label, and every changed node's label is covered by the
/// delta's width.  Applying the delta to `a` (setting each listed node to its
/// list's partition and leaving all others alone) therefore reproduces `b` on
/// every index `b` covers.
pub proof fn lemma_delta_correct(a: Seq<usize>, b: Seq<usize>)
    requires
        b.len() <= usize::MAX,
    ensures
        forall|p: int, m: usize| 0 <= p < delta_of(a, b).len() ==> (#[trigger] delta_of(a, b)[
            p
        ].contains(m) <==> changed(a, b, m as int) && b[m as int] == p),
        forall|m: int| #[trigger] changed(a, b, m) ==> b[m] < delta_of(a, b).len(),
{
    assert forall|p: int, m: usize| 0 <= p < delta_of(a, b).len() implies (#[trigger] delta_of(
        a,
        b,
    )[p].contains(m) <==> changed(a, b, m as int) && b[m as int] == p) by {
        lemma_delta_membership(a, b, p, b.len() as int, m);
    }
    assert forall|m: int| #[trigger] changed(a, b, m) implies b[m] < delta_of(a, b).len() by {
        lemma_delta_covers(a, b, m);
    }
}

/// Diffing a snapshot against itself finds nothing: the delta is a single
/// empty partition and no write is owed.
pub proof fn lemma_no_change_empty(s: Seq<usize>)
    ensures
        !any_changed(s, s),
        delta_of(s, s) == seq![Seq::<usize>::empty()],
{
    lemma_no_change_upto(s, s.len() as int);
    assert(delta_of(s, s) =~= seq![Seq::<usize>::empty()]);
}

proof fn lemma_no_change_upto(s: Seq<usize>, n: int)
    ensures
        delta_width_upto(s, s, n) == 1,
        forall|p: int| #[trigger] delta_nodes_upto(s, s, p, n) == Seq::<usize>::empty(),
        !any_changed_upto(s, s, n),
    decreases n,
{
    if n > 0 {
        lemma_no_change_upto(s, n - 1);
        assert(!changed(s, s, n - 1));
        assert forall|p: int| #[trigger] delta_nodes_upto(s, s, p, n) == Seq::<usize>::empty() by {
            assert(delta_nodes_upto(s, s, p, n) == delta_nodes_upto(s, s, p, n - 1));
        }
        if any_changed_upto(s, s, n) {
            let k = choose|k: int| 0 <= k < n && changed(s, s, k);
            assert(false);
        }
    } else {
        if any_changed_upto(s, s, n) {
            let k = choose|k: int| 0 <= k < n && changed(s, s, k);
            assert(false);
        }
    }
}


/// Assign label `lab` to `node`, zero-extending the snapshot on demand.
pub open spec fn assign_node(m: Seq<usize>, node: int, lab: usize) -> Seq<usize> {
    let grown = if node < m.len() {
        m
    } else {
        m + Seq::new((node + 1 - m.len()) as nat, |k: int| 0usize)
    };
    grown.update(node, lab)
}

/// Assign every node of `ns` the label `lab`, in order.
pub open spec fn apply_list(m: Seq<usize>, ns: Seq<usize>, lab: usize) -> Seq<usize>
    decreases ns.len(),
{
    if ns.len() == 0 {
        m
    } else {
        apply_list(assign_node(m, ns[0] as int, lab), ns.drop_first(), lab)
    }
}

/// Apply partitions `i..` of delta `d` to snapshot `m`: set every listed node
/// to its list's partition, leaving all other nodes alone.
pub open spec fn apply_delta_from(m: Seq<usize>, d: Seq<Seq<usize>>, i: int) -> Seq<usize>
    decreases d.len() - i,
{
    if i < 0 || i >= d.len() {
        m
    } else {
        apply_delta_from(apply_list(m, d[i], i as usize), d, i + 1)
    }
}

/// Apply a whole delta to a snapshot.
pub open spec fn apply_delta(m: Seq<usize>, d: Seq<Seq<usize>>) -> Seq<usize> {
    apply_delta_from(m, d, 0)
}

/// With every label of `b` at most `bound`, the delta's width stays within
/// `bound + 1`.
pub proof fn lemma_delta_width_bounded(a: Seq<usize>, b: Seq<usize>, bound: int, n: int)
    requires
        bound >= 0,
        forall|k: int| 0 <= k < b.len() ==> b[k] <= bound,
    ensures
        delta_width_upto(a, b, n) <= bound + 1,
    decreases n,
{
    if n > 0 {
        lemma_delta_width_bounded(a, b, bound, n - 1);
    }
}

/// Appending to a sequence adds exactly one possible member.
pub proof fn lemma_push_has(s: Seq<usize>, x: usize, y: usize)
    ensures
        s.push(x).contains(y) <==> (s.contains(y) || x == y),
{
    if s.push(x).contains(y) {
        let k = choose|k: int| 0 <= k < s.push(x).len() && s.push(x)[k] == y;
        if k < s.len() {
            assert(s[k] == y);
            assert(s.contains(y));
        }
    }
    if s.contains(y) {
        let k = choose|k: int| 0 <= k < s.len() && s[k] == y;
        assert(s.push(x)[k] == y);
        assert(s.push(x).contains(y));
    }
    if x == y {
        assert(s.push(x)[s.len() as int] == y);
        assert(s.push(x).contains(y));
    }
}

/// The label node `n` must hold after the partitions below `i` of the delta
/// between `a` and `b` were applied to `a`, and, within partition `i`, the
/// first `k` listed nodes.
pub open spec fn partly_applied(a: Seq<usize>, b: Seq<usize>, i: int, k: int, n: int) -> usize {
    if changed(a, b, n) && (b[n] < i || (b[n] == i && delta_nodes(a, b, i).take(k).contains(
        n as usize,
    ))) {
        b[n]
    } else if n < a.len() {
        a[n]
    } else {
        0usize
    }
}

/// The snapshot invariant while a delta's partitions are applied.
pub open spec fn apply_mid_ok(a: Seq<usize>, b: Seq<usize>, m: Seq<usize>, i: int, k: int) -> bool {
    &&& a.len() <= m.len()
    &&& m.len() <= if a.len() > b.len() {
        a.len() as int
    } else {
        b.len() as int
    }
    &&& forall|n: int| 0 <= n < m.len() ==> m[n] == partly_applied(a, b, i, k, n)
    &&& forall|n: int| 0 <= n < b.len() && changed(a, b, n) && (b[n] < i || (b[n] == i
        && delta_nodes(a, b, i).take(k).contains(n as usize))) ==> n < m.len()
}

proof fn lemma_apply_list_group(a: Seq<usize>, b: Seq<usize>, m: Seq<usize>, i: int, k: int)
    requires
        0 <= i <= usize::MAX,
        b.len() <= usize::MAX,
        0 <= k <= delta_nodes(a, b, i).len(),
        apply_mid_ok(a, b, m, i, k),
    ensures
        apply_mid_ok(
            a,
            b,
            apply_list(m, delta_nodes(a, b, i).skip(k), i as usize),
            i,
            delta_nodes(a, b, i).len() as int,
        ),
    decreases delta_nodes(a, b, i).len() - k,
{
    let ns = delta_nodes(a, b, i);
    if k == ns.len() {
        assert(ns.skip(k) =~= Seq::<usize>::empty());
        assert(apply_list(m, ns.skip(k), i as usize) == m);
    } else {
        let n0 = ns[k];
        lemma_delta_membership(a, b, i, b.len() as int, n0);
        assert(ns.contains(n0)) by {
            assert(ns[k] == n0);
        }
        assert(changed(a, b, n0 as int) && b[n0 as int] == i);
        assert(n0 < b.len());
        let m1 = assign_node(m, n0 as int, i as usize);
        assert(i as usize == b[n0 as int]);
        assert(ns.take(k + 1) =~= ns.take(k).push(n0));
        assert forall|n: int| 0 <= n < m1.len() implies m1[n] == partly_applied(a, b, i, k + 1, n)
            by {
            lemma_push_has(ns.take(k), n0, n as usize);
            if n == n0 as int {
                assert(m1[n] == i as usize);
                assert(ns.take(k + 1).contains(n as usize));
            } else if n < m.len() {
                assert(m1[n] == m[n]);
                assert(partly_applied(a, b, i, k + 1, n) == partly_applied(a, b, i, k, n));
            } else {
                assert(m1[n] == 0usize);
                assert(n >= m.len() >= a.len());
                if changed(a, b, n) && (b[n] < i || (b[n] == i && ns.take(k + 1).contains(
                    n as usize,
                ))) {
                    if b[n] < i {
                        assert(n < m.len());
                        assert(false);
                    } else {
                        assert(ns.take(k + 1).contains(n as usize));
                        assert(n as usize != n0);
                        assert(ns.take(k).contains(n as usize));
                        assert(n < m.len());
                        assert(false);
                    }
                }
                assert(partly_applied(a, b, i, k + 1, n) == 0usize);
            }
        }
        assert forall|n: int| 0 <= n < b.len() && changed(a, b, n) && (b[n] < i || (b[n] == i
            && ns.take(k + 1).contains(n as usize))) implies n < m1.len() by {
            lemma_push_has(ns.take(k), n0, n as usize);
            if n == n0 as int {
                assert(n < m1.len());
            }
        }
        assert(apply_mid_ok(a, b, m1, i, k + 1));
        assert(ns.skip(k).drop_first() =~= ns.skip(k + 1));
        assert(ns.skip(k)[0] == n0);
        assert(apply_list(m, ns.skip(k), i as usize) == apply_list(m1, ns.skip(k + 1), i as usize));
        lemma_apply_list_group(a, b, m1, i, k + 1);
    }
}

proof fn lemma_apply_delta_general(a: Seq<usize>, b: Seq<usize>, m: Seq<usize>, i: int)
    requires
        0 <= i <= delta_of(a, b).len(),
        b.len() <= usize::MAX,
        delta_of(a, b).len() <= usize::MAX + 1,
        apply_mid_ok(a, b, m, i, 0),
    ensures
        apply_mid_ok(a, b, apply_delta_from(m, delta_of(a, b), i), delta_of(a, b).len() as int, 0),
    decreases delta_of(a, b).len() - i,
{
    let d = delta_of(a, b);
    if i < d.len() {
        let ns = delta_nodes(a, b, i);
        assert(d[i] == ns);
        assert(ns.skip(0) =~= ns);
        assert(ns.take(0) =~= Seq::<usize>::empty());
        lemma_apply_list_group(a, b, m, i, 0);
        let m1 = apply_list(m, d[i], i as usize);
        assert(apply_mid_ok(a, b, m1, i + 1, 0)) by {
            assert forall|n: int| 0 <= n < b.len() && changed(a, b, n) implies ((b[n] < i || (b[n]
                == i && ns.take(ns.len() as int).contains(n as usize))) <==> b[n] < i + 1) by {
                lemma_delta_membership(a, b, i, b.len() as int, n as usize);
                assert(ns.take(ns.len() as int) =~= ns);
            }
            assert forall|n: int| 0 <= n < m1.len() implies m1[n] == partly_applied(
                a,
                b,
                i + 1,
                0,
                n,
            ) by {
                assert(m1[n] == partly_applied(a, b, i, ns.len() as int, n));
                if changed(a, b, n) {
                    assert(ns.take(ns.len() as int) =~= ns);
                    lemma_delta_membership(a, b, i, b.len() as int, n as usize);
                }
            }
            assert(delta_nodes(a, b, i + 1).take(0) =~= Seq::<usize>::empty());
        }
        lemma_apply_delta_general(a, b, m1, i + 1);
    } else {
        assert(delta_nodes(a, b, i).take(0) =~= Seq::<usize>::empty());
    }
}

/// Delta correctness, in apply form: setting each node in the delta's lists
/// to its list's partition, and leaving every other node alone, turns `a`
/// into `b` on every index `b` covers, and leaves `a`'s tail untouched where
/// `b` is shorter.
pub proof fn lemma_delta_apply(a: Seq<usize>, b: Seq<usize>)
    requires
        a.len() <= usize::MAX,
        b.len() <= usize::MAX,
    ensures
        apply_delta(a, delta_of(a, b)).len() == if a.len() > b.len() {
            a.len() as int
        } else {
            b.len() as int
        },
        forall|n: int| 0 <= n < b.len() ==> apply_delta(a, delta_of(a, b))[n] == b[n],
        forall|n: int| b.len() <= n < a.len() ==> apply_delta(a, delta_of(a, b))[n] == a[n],
{
    let d = delta_of(a, b);
    lemma_delta_width_bounded(a, b, usize::MAX as int, b.len() as int);
    lemma_delta_width_min(a, b, b.len() as int);
    assert(d.len() <= usize::MAX + 1);
    assert(delta_nodes(a, b, 0).take(0) =~= Seq::<usize>::empty());
    assert(apply_mid_ok(a, b, a, 0, 0)) by {
        assert forall|n: int| 0 <= n < a.len() implies a[n] == partly_applied(a, b, 0, 0, n) by {
            if changed(a, b, n) && b[n] < 0 {
                assert(false);
            }
        }
    }
    lemma_apply_delta_general(a, b, a, 0);
    let fin = apply_delta(a, d);
    assert(apply_mid_ok(a, b, fin, d.len() as int, 0));
    assert forall|n: int| 0 <= n < b.len() && changed(a, b, n) implies n < fin.len() && fin[n]
        == b[n] by {
        lemma_delta_covers(a, b, n);
        assert(b[n] < d.len());
        assert(n < fin.len());
        assert(fin[n] == partly_applied(a, b, d.len() as int, 0, n));
    }
    assert(fin.len() == if a.len() > b.len() {
        a.len() as int
    } else {
        b.len() as int
    }) by {
        if b.len() > a.len() {
            assert(changed(a, b, b.len() - 1));
        }
    }
    assert forall|n: int| 0 <= n < b.len() implies fin[n] == b[n] by {
        assert(fin[n] == partly_applied(a, b, d.len() as int, 0, n));
        if !changed(a, b, n) {
            assert(n < a.len() && a[n] == b[n]);
        } else {
            lemma_delta_covers(a, b, n);
        }
    }
    assert forall|n: int| b.len() <= n < a.len() implies fin[n] == a[n] by {
        assert(fin[n] == partly_applied(a, b, d.len() as int, 0, n));
    }
}

} // verus!
