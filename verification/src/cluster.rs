use vstd::prelude::*;
use crate::slots::{self, NodeSlots, TOTAL_SLOTS, allocation_of, views_of};

verus! {

/// Lexicographic order on character sequences, by code point; this is the
/// ascending order in which the topology keeps its node addresses.
pub open spec fn lex_lt(a: Seq<char>, b: Seq<char>) -> bool
    decreases a.len(),
{
    if b.len() == 0 {
        false
    } else if a.len() == 0 {
        true
    } else if (a[0] as u32) < (b[0] as u32) {
        true
    } else if (b[0] as u32) < (a[0] as u32) {
        false
    } else {
        lex_lt(a.skip(1), b.skip(1))
    }
}

pub proof fn lemma_lex_irrefl(a: Seq<char>)
    ensures
        !lex_lt(a, a),
    decreases a.len(),
{
    if a.len() > 0 {
        lemma_lex_irrefl(a.skip(1));
    }
}

pub proof fn lemma_lex_trichotomy(a: Seq<char>, b: Seq<char>)
    ensures
        lex_lt(a, b) || lex_lt(b, a) || a == b,
    decreases a.len(),
{
    if a.len() == 0 && b.len() == 0 {
        assert(a =~= b);
    } else if a.len() > 0 && b.len() > 0 {
        if (a[0] as u32) == (b[0] as u32) {
            lemma_lex_trichotomy(a.skip(1), b.skip(1));
            if a.skip(1) == b.skip(1) {
                assert(a.skip(1).len() == a.len() - 1);
                assert(b.skip(1).len() == b.len() - 1);
                assert(a.len() == b.len());
                vstd::utf8::char_u32_cast(a[0], a[0] as u32);
                vstd::utf8::char_u32_cast(b[0], b[0] as u32);
                assert(a[0] == b[0]);
                assert forall|i: int| 0 <= i < a.len() implies a[i] == b[i] by {
                    if i > 0 {
                        assert(a.skip(1)[i - 1] == a[i]);
                        assert(b.skip(1)[i - 1] == b[i]);
                    }
                }
                assert(a =~= b);
            }
        }
    }
}

pub proof fn lemma_lex_trans(a: Seq<char>, b: Seq<char>, c: Seq<char>)
    requires
        lex_lt(a, b),
        lex_lt(b, c),
    ensures
        lex_lt(a, c),
    decreases a.len(),
{
    if a.len() > 0 && b.len() > 0 && c.len() > 0 {
        if (a[0] as u32) == (b[0] as u32) && (b[0] as u32) == (c[0] as u32) {
            lemma_lex_trans(a.skip(1), b.skip(1), c.skip(1));
        }
    }
}

/// Compare two addresses in the topology's lexicographic order.
fn str_lt(a: &String, b: &String) -> (r: bool)
    ensures
        r == lex_lt(a@, b@),
{
    let alen = a.as_str().unicode_len();
    let blen = b.as_str().unicode_len();
    let mut i: usize = 0;
    proof {
        assert(a@.skip(0) =~= a@);
        assert(b@.skip(0) =~= b@);
    }
    loop
        invariant
            i <= alen,
            i <= blen,
            alen == a@.len(),
            blen == b@.len(),
            lex_lt(a@, b@) == lex_lt(a@.skip(i as int), b@.skip(i as int)),
        decreases alen - i,
    {
        if i == blen {
            return false;
        }
        if i == alen {
            return true;
        }
        let ca = a.as_str().get_char(i);
        let cb = b.as_str().get_char(i);
        proof {
            assert(a@.skip(i as int)[0] == a@[i as int]);
            assert(b@.skip(i as int)[0] == b@[i as int]);
        }
        if (ca as u32) < (cb as u32) {
            return true;
        }
        if (cb as u32) < (ca as u32) {
            return false;
        }
        proof {
            assert(a@.skip(i as int).skip(1) =~= a@.skip(i as int + 1));
            assert(b@.skip(i as int).skip(1) =~= b@.skip(i as int + 1));
        }
        i += 1;
    }
}

/// `nodes` is strictly ascending in lexicographic order (so also duplicate
/// free).
pub open spec fn sorted_strict(nodes: Seq<Seq<char>>) -> bool {
    forall|i: int, j: int|
        #![trigger nodes[i], nodes[j]]
        0 <= i < j < nodes.len() ==> lex_lt(nodes[i], nodes[j])
}

/// A name for what `serde_json::to_string_pretty` renders for a slot map's
/// entries.
pub uninterp spec fn slots_json_of(entries: Seq<(Seq<char>, usize, usize)>) -> Seq<char>;

/// The plain values of a slot map that its rendering is a function of.
pub open spec fn slot_entries(s: Seq<NodeSlots>) -> Seq<(Seq<char>, usize, usize)> {
    s.map_values(|e: NodeSlots| (e.address@, e.slot_range.0, e.slot_range.1))
}

/// Relies on serde_json::to_string_pretty: the rendered text is a
/// deterministic function of the entries' values, and serializing these
/// values (text and integers under text keys) cannot fail, so the rendering
/// is owed. Each entry becomes a record carrying its address and its slot
/// range.
#[verifier::external_body]
fn render_slots_json(slot_map: &Vec<NodeSlots>) -> (r: String)
    ensures
        r@ == slots_json_of(slot_entries(slot_map@)),
{
    let entries: Vec<serde_json::Value> = slot_map.iter().map(|e| {
        let mut obj = serde_json::Map::new();
        obj.insert("address".to_string(), serde_json::Value::String(e.address.clone()));
        let range = vec![
            serde_json::Value::from(e.slot_range.0 as u64),
            serde_json::Value::from(e.slot_range.1 as u64),
        ];
        obj.insert("slot_range".to_string(), serde_json::Value::Array(range));
        serde_json::Value::Object(obj)
    }).collect();
    serde_json::to_string_pretty(&entries).unwrap_or_else(|_| "[]".to_string())
}

/// Two strictly sorted address lists with the same membership are the same
/// list.
pub proof fn lemma_sorted_by_membership(s1: Seq<Seq<char>>, s2: Seq<Seq<char>>)
    requires
        sorted_strict(s1),
        sorted_strict(s2),
        s1.to_set() == s2.to_set(),
    ensures
        s1 == s2,
    decreases s1.len(),
{
    if s1.len() == 0 {
        if s2.len() > 0 {
            assert(s2.contains(s2[0]));
            assert(s1.to_set().contains(s2[0]));
            assert(false);
        }
        assert(s1 =~= s2);
    } else {
        let x1 = s1[s1.len() - 1];
        assert(s1.contains(x1));
        assert(s2.to_set().contains(x1));
        let k = choose|k: int| 0 <= k < s2.len() && s2[k] == x1;
        let x2 = s2[s2.len() - 1];
        assert(s2.contains(x2));
        assert(s1.to_set().contains(x2));
        let j = choose|j: int| 0 <= j < s1.len() && s1[j] == x2;
        lemma_lex_irrefl(x1);
        if j < s1.len() - 1 {
            assert(lex_lt(s1[j], s1[s1.len() - 1]));
        }
        if k < s2.len() - 1 {
            assert(lex_lt(s2[k], s2[s2.len() - 1]));
        }
        if j < s1.len() - 1 && k < s2.len() - 1 {
            lemma_lex_trans(x1, x2, x1);
            assert(false);
        }
        assert(x1 == x2);
        let p1 = s1.drop_last();
        let p2 = s2.drop_last();
        assert forall|a: int, b: int|
            #![trigger p1[a], p1[b]]
            0 <= a < b < p1.len() implies lex_lt(p1[a], p1[b]) by {
            assert(lex_lt(s1[a], s1[b]));
        }
        assert forall|a: int, b: int|
            #![trigger p2[a], p2[b]]
            0 <= a < b < p2.len() implies lex_lt(p2[a], p2[b]) by {
            assert(lex_lt(s2[a], s2[b]));
        }
        assert(p1.to_set() =~= s1.to_set().remove(x1)) by {
            assert forall|y: Seq<char>| p1.to_set().contains(y) implies s1.to_set().remove(
                x1,
            ).contains(y) by {
                let t = choose|t: int| 0 <= t < p1.len() && p1[t] == y;
                assert(s1[t] == y);
                assert(s1.contains(y));
                assert(lex_lt(s1[t], s1[s1.len() - 1]));
                lemma_lex_irrefl(y);
            }
            assert forall|y: Seq<char>| s1.to_set().remove(x1).contains(y) implies p1.to_set()
                .contains(y) by {
                let t = choose|t: int| 0 <= t < s1.len() && s1[t] == y;
                assert(t != s1.len() - 1);
                assert(p1[t] == y);
                assert(p1.contains(y));
            }
        }
        assert(p2.to_set() =~= s2.to_set().remove(x1)) by {
            assert forall|y: Seq<char>| p2.to_set().contains(y) implies s2.to_set().remove(
                x1,
            ).contains(y) by {
                let t = choose|t: int| 0 <= t < p2.len() && p2[t] == y;
                assert(s2[t] == y);
                assert(s2.contains(y));
                assert(lex_lt(s2[t], s2[s2.len() - 1]));
                lemma_lex_irrefl(y);
            }
            assert forall|y: Seq<char>| s2.to_set().remove(x1).contains(y) implies p2.to_set()
                .contains(y) by {
                let t = choose|t: int| 0 <= t < s2.len() && s2[t] == y;
                assert(t != s2.len() - 1);
                assert(p2[t] == y);
                assert(p2.contains(y));
            }
        }
        lemma_sorted_by_membership(p1, p2);
        assert forall|t: int| 0 <= t < s1.len() implies s1[t] == s2[t] by {
            if t < s1.len() - 1 {
                assert(p1[t] == s1[t]);
                assert(p2[t] == s2[t]);
            }
        }
        assert(s1 =~= s2);
    }
}

/// Convergence law: two well-formed topologies with the same membership
/// hold the same sorted node list and the same slot assignment — replicas
/// agree on the slot map from membership alone, without communication.
pub proof fn lemma_topology_determined(t1: &ClusterState, t2: &ClusterState)
    requires
        t1.wf(),
        t2.wf(),
        t1.node_set() == t2.node_set(),
    ensures
        views_of(t1.nodes@) == views_of(t2.nodes@),
        t1.slot_map@.len() == t2.slot_map@.len(),
        forall|i: int|
            0 <= i < t1.slot_map@.len() ==> (#[trigger] t1.slot_map@[i]).address@
                == t2.slot_map@[i].address@ && t1.slot_map@[i].slot_range
                == t2.slot_map@[i].slot_range,
{
    lemma_sorted_by_membership(views_of(t1.nodes@), views_of(t2.nodes@));
    slots::lemma_allocate_deterministic(views_of(t1.nodes@), t1.slot_map@, t2.slot_map@);
}

/// Idempotent join law: joining an address makes it a member, and joining a
/// member again leaves the membership unchanged — together with `add_node`'s
/// promise that a join of a present address leaves the whole topology
/// untouched, joining twice equals joining once.
pub proof fn lemma_idempotent_join(s: Set<Seq<char>>, a: Seq<char>)
    ensures
        s.insert(a).contains(a),
        s.insert(a).insert(a) == s.insert(a),
{
    assert(s.insert(a).insert(a) =~= s.insert(a));
}

/// The cluster topology: the sorted list of node addresses together with the
/// slot assignment that the allocator derives from it.
pub struct ClusterState {
    pub nodes: Vec<String>,
    pub slot_map: Vec<NodeSlots>,
}

impl ClusterState {
    /// Topology invariant: at least one node and no more than there are
    /// slots, addresses strictly sorted ascending, and the slot map is
    /// exactly the allocator's assignment for the node list.
    pub open spec fn wf(&self) -> bool {
        &&& 1 <= self.nodes@.len() <= TOTAL_SLOTS
        &&& sorted_strict(views_of(self.nodes@))
        &&& allocation_of(self.slot_map@, views_of(self.nodes@))
    }

    /// The membership of the cluster, as a set of addresses.
    pub open spec fn node_set(&self) -> Set<Seq<char>> {
        views_of(self.nodes@).to_set()
    }

    /// A fresh topology holding only this process's own address; it owns the
    /// single range covering every slot.
    pub fn new(self_addr: String) -> (s: Self)
        ensures
            s.wf(),
            s.node_set() == Set::empty().insert(self_addr@),
            s.nodes@.len() == 1 && s.nodes@[0]@ == self_addr@,
            s.slot_map@.len() == 1 && s.slot_map@[0].address@ == self_addr@,
            s.slot_map@[0].slot_range.0 == 0 && s.slot_map@[0].slot_range.1 == TOTAL_SLOTS - 1,
    {
        let mut s = ClusterState { nodes: Vec::new(), slot_map: Vec::new() };
        s.nodes.push(self_addr);
        s.rebalance_slots();
        proof {
            assert(views_of(s.nodes@)[0] == s.nodes@[0]@);
            assert(s.node_set() =~= Set::empty().insert(s.nodes@[0]@));
        }
        s
    }

    /// Recompute the slot map from the current node list: a full rebalance,
    /// leaving the node list itself untouched.
    pub fn rebalance_slots(&mut self)
        requires
            old(self).nodes@.len() <= TOTAL_SLOTS,
        ensures
            final(self).nodes == old(self).nodes,
            allocation_of(final(self).slot_map@, views_of(final(self).nodes@)),
    {
        self.slot_map = slots::allocate(&self.nodes);
    }

    /// Join `addr` to the topology. A no-op when the address is already a
    /// member; otherwise it is inserted in sorted position and the whole
    /// slot map is recomputed. Reports whether the topology changed.
    pub fn add_node(&mut self, addr: String) -> (changed: bool)
        requires
            old(self).wf(),
            old(self).nodes@.len() < TOTAL_SLOTS || old(self).node_set().contains(addr@),
        ensures
            final(self).wf(),
            changed == !old(self).node_set().contains(addr@),
            !changed ==> *final(self) == *old(self),
            changed ==> final(self).node_set() == old(self).node_set().insert(addr@),
            changed ==> final(self).nodes@.len() == old(self).nodes@.len() + 1,
    {
        let ghost v = views_of(old(self).nodes@);
        let mut j: usize = 0;
        loop
            invariant
                *self == *old(self),
                old(self).wf(),
                old(self).nodes@.len() < TOTAL_SLOTS || old(self).node_set().contains(addr@),
                j <= self.nodes@.len(),
                v == views_of(self.nodes@),
                forall|t: int| 0 <= t < j ==> lex_lt(#[trigger] v[t], addr@),
            ensures
                *self == *old(self),
                j <= self.nodes@.len(),
                v == views_of(self.nodes@),
                forall|t: int| 0 <= t < j ==> lex_lt(#[trigger] v[t], addr@),
                j < self.nodes@.len() ==> !lex_lt(v[j as int], addr@),
            decreases self.nodes@.len() - j,
        {
            if j == self.nodes.len() {
                break;
            }
            if !str_lt(&self.nodes[j], &addr) {
                break;
            }
            j += 1;
        }
        let present = j < self.nodes.len() && self.nodes[j] == addr;
        if present {
            proof {
                assert(v[j as int] == addr@);
                assert(v.contains(addr@));
                assert(old(self).node_set().contains(addr@));
            }
            false
        } else {
            proof {
                assert forall|t: int| 0 <= t < v.len() implies v[t] != addr@ by {
                    lemma_lex_irrefl(addr@);
                    if t < j {
                        if v[t] == addr@ {
                            assert(lex_lt(addr@, addr@));
                        }
                    } else {
                        assert(v[j as int] == self.nodes@[j as int]@);
                        assert(v[j as int] != addr@);
                        if t > j && v[t] == addr@ {
                            assert(lex_lt(v[j as int], v[t]));
                            assert(false);
                        }
                    }
                }
                assert(!old(self).node_set().contains(addr@));
            }
            self.nodes.insert(j, addr);
            proof {
                let vp = views_of(self.nodes@);
                old(self).nodes@.insert_ensures(j as int, addr);
                assert forall|t: int| 0 <= t < vp.len() implies vp[t] == (if t < j {
                    v[t]
                } else if t == j {
                    addr@
                } else {
                    v[t - 1]
                }) by {
                    assert(vp[t] == self.nodes@[t]@);
                    if t < j {
                        assert(self.nodes@[t] == old(self).nodes@[t]);
                    } else if t > j {
                        assert(self.nodes@[(t - 1) + 1] == old(self).nodes@[t - 1]);
                    }
                }
                assert forall|t1: int, t2: int|
                    #![trigger vp[t1], vp[t2]]
                    0 <= t1 < t2 < vp.len() implies lex_lt(vp[t1], vp[t2]) by {
                    if t2 < j {
                        assert(lex_lt(v[t1], v[t2]));
                    } else if t2 == j {
                        assert(lex_lt(v[t1], addr@));
                    } else if t1 < j {
                        assert(t1 < t2 - 1);
                        assert(lex_lt(v[t1], v[t2 - 1]));
                    } else if t1 == j {
                        assert(j < v.len());
                        assert(v[j as int] == old(self).nodes@[j as int]@);
                        assert(v[j as int] != addr@);
                        lemma_lex_trichotomy(v[j as int], addr@);
                        assert(lex_lt(addr@, v[j as int]));
                        if t2 - 1 == j {
                            assert(vp[t2] == v[j as int]);
                        } else {
                            assert(lex_lt(v[j as int], v[t2 - 1]));
                            lemma_lex_trans(addr@, v[j as int], v[t2 - 1]);
                        }
                    } else {
                        assert(lex_lt(v[t1 - 1], v[t2 - 1]));
                    }
                }
                assert(sorted_strict(vp));
                assert(vp.to_set() =~= v.to_set().insert(addr@)) by {
                    assert forall|k: Seq<char>| vp.to_set().contains(k) implies v.to_set().insert(
                        addr@,
                    ).contains(k) by {
                        let t = choose|t: int| 0 <= t < vp.len() && vp[t] == k;
                        if t < j {
                            assert(v.contains(k));
                        } else if t > j {
                            assert(v[t - 1] == k);
                            assert(v.contains(k));
                        }
                    }
                    assert forall|k: Seq<char>| v.to_set().insert(addr@).contains(
                        k,
                    ) implies vp.to_set().contains(k) by {
                        if k == addr@ {
                            assert(vp[j as int] == k);
                            assert(vp.contains(k));
                        } else {
                            let t = choose|t: int| 0 <= t < v.len() && v[t] == k;
                            if t < j {
                                assert(vp[t] == k);
                            } else {
                                assert(vp[t + 1] == k);
                            }
                            assert(vp.contains(k));
                        }
                    }
                }
            }
            self.rebalance_slots();
            proof {
                assert(self.node_set() =~= old(self).node_set().insert(addr@));
            }
            true
        }
    }

    /// Render the current slot map for external consumption; never fails,
    /// and the text is a function of the slot map alone.
    pub fn get_slots_json(&self) -> (r: String)
        ensures
            r@ == slots_json_of(slot_entries(self.slot_map@)),
    {
        render_slots_json(&self.slot_map)
    }
}

} // verus!
