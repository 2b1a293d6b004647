use vstd::prelude::*;
use vstd::arithmetic::div_mod::lemma_fundamental_div_mod;

verus! {

/// The fixed number of keyspace slots that a topology distributes.
pub const TOTAL_SLOTS: usize = 16384;

/// One node's assignment: its address and its inclusive slot range.
pub struct NodeSlots {
    pub address: String,
    pub slot_range: (usize, usize),
}

/// How many slots node `i` of `n` receives: the first `TOTAL_SLOTS % n`
/// nodes receive one slot more than the rest.
pub open spec fn slot_count(n: int, i: int) -> int {
    if i < TOTAL_SLOTS as int % n {
        TOTAL_SLOTS as int / n + 1
    } else {
        TOTAL_SLOTS as int / n
    }
}

/// The first slot of node `i` of `n`: the sum of the counts of all earlier
/// nodes.
pub open spec fn slot_start(n: int, i: int) -> int
    decreases i,
{
    if i <= 0 {
        0
    } else {
        slot_start(n, i - 1) + slot_count(n, i - 1)
    }
}

/// The views of a list of node addresses.
pub open spec fn views_of(nodes: Seq<String>) -> Seq<Seq<char>> {
    nodes.map_values(|s: String| s@)
}

/// `r` is exactly the slot assignment for the ordered node list `nodes`:
/// one range per node, in order, each starting where the previous ended.
pub open spec fn allocation_of(r: Seq<NodeSlots>, nodes: Seq<Seq<char>>) -> bool {
    &&& r.len() == nodes.len()
    &&& forall|i: int| 0 <= i < r.len() ==> (#[trigger] r[i]).address@ == nodes[i]
    &&& forall|i: int|
        0 <= i < r.len() ==> (#[trigger] r[i]).slot_range.0 == slot_start(nodes.len() as int, i)
    &&& forall|i: int|
        0 <= i < r.len() ==> (#[trigger] r[i]).slot_range.1 + 1 == slot_start(
            nodes.len() as int,
            i,
        ) + slot_count(nodes.len() as int, i)
}

proof fn lemma_base_extra(n: int)
    requires
        1 <= n <= TOTAL_SLOTS as int,
    ensures
        1 <= TOTAL_SLOTS as int / n,
        0 <= TOTAL_SLOTS as int % n < n,
        n * (TOTAL_SLOTS as int / n) + TOTAL_SLOTS as int % n == TOTAL_SLOTS as int,
{
    lemma_fundamental_div_mod(TOTAL_SLOTS as int, n);
    assert(0 <= TOTAL_SLOTS as int % n < n) by (nonlinear_arith)
        requires 1 <= n;
    assert(1 <= TOTAL_SLOTS as int / n) by (nonlinear_arith)
        requires 1 <= n <= TOTAL_SLOTS as int;
}

proof fn lemma_slot_start_closed(n: int, i: int)
    requires
        1 <= n <= TOTAL_SLOTS as int,
        0 <= i <= n,
    ensures
        slot_start(n, i) == i * (TOTAL_SLOTS as int / n) + (if i <= TOTAL_SLOTS as int % n {
            i
        } else {
            TOTAL_SLOTS as int % n
        }),
    decreases i,
{
    lemma_base_extra(n);
    let b = TOTAL_SLOTS as int / n;
    let e = TOTAL_SLOTS as int % n;
    if i == 0 {
        assert(slot_start(n, 0) == 0);
        assert(0 * b == 0) by (nonlinear_arith);
        assert(slot_start(n, i) == i * b + i);
    } else {
        lemma_slot_start_closed(n, i - 1);
        assert((i - 1) * b + b == i * b) by (nonlinear_arith);
        assert(slot_start(n, i) == slot_start(n, i - 1) + slot_count(n, i - 1));
        if i - 1 < e {
            assert(slot_start(n, i - 1) == (i - 1) * b + (i - 1));
            assert(slot_start(n, i) == (i - 1) * b + (i - 1) + (b + 1));
            assert(slot_start(n, i) == i * b + i);
        } else {
            assert(slot_start(n, i - 1) == (i - 1) * b + e);
            assert(slot_start(n, i) == (i - 1) * b + e + b);
            assert(slot_start(n, i) == i * b + e);
        }
    }
}

proof fn lemma_slot_start_total(n: int)
    requires
        1 <= n <= TOTAL_SLOTS as int,
    ensures
        slot_start(n, n) == TOTAL_SLOTS as int,
{
    lemma_base_extra(n);
    lemma_slot_start_closed(n, n);
    assert(n * (TOTAL_SLOTS as int / n) == (TOTAL_SLOTS as int / n) * n) by (nonlinear_arith);
}

proof fn lemma_slot_start_mono(n: int, i: int, j: int)
    requires
        1 <= n <= TOTAL_SLOTS as int,
        0 <= i <= j,
    ensures
        slot_start(n, i) <= slot_start(n, j),
    decreases j - i,
{
    lemma_base_extra(n);
    if i < j {
        lemma_slot_start_mono(n, i, j - 1);
    }
}

/// Coverage law: every slot `s` in `[0, slot_start(n, m))` falls inside
/// exactly one of the first `m` ranges; with `m == n` every slot of
/// `[0, TOTAL_SLOTS)` is owned by some node.
pub proof fn lemma_slot_cover(n: int, m: int, s: int)
    requires
        1 <= n <= TOTAL_SLOTS as int,
        0 <= m <= n,
        0 <= s < slot_start(n, m),
    ensures
        exists|i: int|
            0 <= i < m && (#[trigger] slot_start(n, i)) <= s < slot_start(n, i) + slot_count(n, i),
    decreases m,
{
    if s >= slot_start(n, m - 1) {
        assert(0 <= m - 1 < m && slot_start(n, m - 1) <= s < slot_start(n, m - 1) + slot_count(
            n,
            m - 1,
        ));
    } else {
        lemma_slot_cover(n, m - 1, s);
        let i = choose|i: int|
            0 <= i < m - 1 && (#[trigger] slot_start(n, i)) <= s < slot_start(n, i) + slot_count(
                n,
                i,
            );
        assert(0 <= i < m && slot_start(n, i) <= s < slot_start(n, i) + slot_count(n, i));
    }
}

/// Slot partition law: for any node count `n` in `[1, TOTAL_SLOTS]`, the `n`
/// ranges begin at slot 0, are contiguous, each hold at least one slot, are
/// pairwise disjoint, cover `[0, TOTAL_SLOTS)` with no gaps (so their counts
/// sum to `TOTAL_SLOTS`), and the first `TOTAL_SLOTS % n` ranges hold exactly
/// one slot more than the remaining ones.
pub proof fn lemma_slot_partition(n: int)
    requires
        1 <= n <= TOTAL_SLOTS as int,
    ensures
        slot_start(n, 0) == 0,
        slot_start(n, n) == TOTAL_SLOTS as int,
        forall|i: int|
            0 <= i < n ==> slot_start(n, i + 1) == slot_start(n, i) + #[trigger] slot_count(n, i),
        forall|i: int| 0 <= i < n ==> 1 <= #[trigger] slot_count(n, i),
        forall|i: int, j: int|
            #![trigger slot_start(n, i), slot_start(n, j)]
            0 <= i < j < n ==> slot_start(n, i) + slot_count(n, i) <= slot_start(n, j),
        forall|i: int|
            0 <= i < TOTAL_SLOTS as int % n ==> #[trigger] slot_count(n, i) == TOTAL_SLOTS as int
                / n + 1,
        forall|i: int|
            TOTAL_SLOTS as int % n <= i < n ==> #[trigger] slot_count(n, i) == TOTAL_SLOTS as int
                / n,
{
    lemma_base_extra(n);
    lemma_slot_start_total(n);
    assert forall|i: int, j: int|
        #![trigger slot_start(n, i), slot_start(n, j)]
        0 <= i < j < n implies slot_start(n, i) + slot_count(n, i) <= slot_start(n, j) by {
        lemma_slot_start_mono(n, i + 1, j);
    }
}

/// Determinism: two slot assignments for the same ordered node list agree on
/// every address and every slot range.
pub proof fn lemma_allocate_deterministic(nodes: Seq<Seq<char>>, a: Seq<NodeSlots>, b: Seq<
    NodeSlots,
>)
    requires
        allocation_of(a, nodes),
        allocation_of(b, nodes),
    ensures
        a.len() == b.len(),
        forall|i: int|
            0 <= i < a.len() ==> (#[trigger] a[i]).address@ == b[i].address@ && a[i].slot_range
                == b[i].slot_range,
{
    assert forall|i: int|
        0 <= i < a.len() implies (#[trigger] a[i]).address@ == b[i].address@ && a[i].slot_range
        == b[i].slot_range by {
        assert(a[i].slot_range.0 == b[i].slot_range.0);
        assert(a[i].slot_range.1 + 1 == b[i].slot_range.1 + 1);
    }
}

/// Compute the slot assignment for an ordered list of node addresses:
/// contiguous ranges from slot 0, one per node in the given order, the first
/// `TOTAL_SLOTS % n` nodes receiving one slot more than the rest.
pub fn allocate(nodes: &Vec<String>) -> (r: Vec<NodeSlots>)
    requires
        nodes@.len() <= TOTAL_SLOTS,
    ensures
        allocation_of(r@, views_of(nodes@)),
{
    let n = nodes.len();
    let mut r: Vec<NodeSlots> = Vec::new();
    if n == 0 {
        return r;
    }
    let base = TOTAL_SLOTS / n;
    let extra = TOTAL_SLOTS % n;
    let mut slots: usize = 0;
    let mut i: usize = 0;
    proof {
        lemma_base_extra(n as int);
    }
    while i < n
        invariant
            n == nodes@.len(),
            1 <= n <= TOTAL_SLOTS,
            base == TOTAL_SLOTS as int / n as int,
            extra == TOTAL_SLOTS as int % n as int,
            i <= n,
            r@.len() == i,
            slots == slot_start(n as int, i as int),
            0 <= slots <= TOTAL_SLOTS,
            forall|j: int| 0 <= j < i ==> (#[trigger] r@[j]).address@ == nodes@[j]@,
            forall|j: int|
                0 <= j < i ==> (#[trigger] r@[j]).slot_range.0 == slot_start(n as int, j),
            forall|j: int|
                0 <= j < i ==> (#[trigger] r@[j]).slot_range.1 + 1 == slot_start(n as int, j)
                    + slot_count(n as int, j),
        decreases n - i,
    {
        proof {
            lemma_base_extra(n as int);
            lemma_slot_start_total(n as int);
            lemma_slot_start_mono(n as int, i as int + 1, n as int);
            assert(slot_start(n as int, i as int + 1) == slot_start(n as int, i as int)
                + slot_count(n as int, i as int));
        }
        let count = if i < extra {
            base + 1
        } else {
            base
        };
        let start = slots;
        let end = slots + count - 1;
        r.push(NodeSlots { address: String::from_str(nodes[i].as_str()), slot_range: (start, end) });
        slots = slots + count;
        i += 1;
    }
    proof {
        assert(views_of(nodes@).len() == n as int);
        assert forall|j: int| 0 <= j < r@.len() implies (#[trigger] r@[j]).address@ == views_of(
            nodes@,
        )[j] by {
            assert(views_of(nodes@)[j] == nodes@[j]@);
        }
    }
    r
}

} // verus!
