//! The recommendation graph: undirected adjacency among item ids, with
//! degree-ranked neighbor queries.
//!
//! Adjacency is kept in a hash table of the `hashbrown` crate, held behind an
//! opaque struct because the table's allocator type parameter cannot be
//! declared to the verifier; its contents are named by [`adj_entries`] and
//! reached only through the trusted wrappers below.

use vstd::prelude::*;

verus! {

/// The id → neighbor-set table of the graph.
#[verifier::external_body]
pub struct AdjMap {
    map: hashbrown::HashMap<usize, std::collections::HashSet<usize>>,
}

/// What the adjacency table holds: for each id with an entry, its recorded
/// neighbor set.
pub uninterp spec fn adj_entries(g: AdjMap) -> Map<usize, Set<usize>>;

/// Relies on `hashbrown::HashMap::new`: a new table holds no entry.
#[verifier::external_body]
fn adj_map_new() -> (r: AdjMap)
    ensures
        adj_entries(r).dom() == Set::<usize>::empty(),
{
    AdjMap { map: hashbrown::HashMap::new() }
}

/// Relies on `hashbrown::HashMap::entry` with `Entry::or_default`, and on
/// std's `HashSet::insert`: adds `b` to the set recorded under `a`, creating
/// the entry if absent, and touches no other entry.
#[verifier::external_body]
fn adj_map_add(g: &mut AdjMap, a: usize, b: usize)
    ensures
        adj_entries(*final(g)) == adj_entries(*old(g)).insert(
            a,
            (if adj_entries(*old(g)).contains_key(a) {
                adj_entries(*old(g))[a]
            } else {
                Set::<usize>::empty()
            }).insert(b),
        ),
{
    g.map.entry(a).or_default().insert(b);
}

/// Relies on `hashbrown::HashMap::get` and std's `HashSet` iteration: hands
/// the neighbors recorded under `a` out as a vector, in no promised order; an
/// absent entry yields an empty vector.
#[verifier::external_body]
fn adj_map_neighbors(g: &AdjMap, a: usize) -> (r: Vec<usize>)
    ensures
        (if adj_entries(*g).contains_key(a) {
            r@.to_set() == adj_entries(*g)[a]
        } else {
            r@.len() == 0
        }),
        r@.no_duplicates(),
{
    match g.map.get(&a) {
        Some(s) => s.iter().copied().collect(),
        None => Vec::new(),
    }
}

/// The neighbor set of `a`: empty where `a` has no entry.
pub open spec fn neighbors(m: Map<usize, Set<usize>>, a: usize) -> Set<usize> {
    if m.contains_key(a) {
        m[a]
    } else {
        Set::empty()
    }
}

/// The degree of `a`: how many neighbors it has.
pub open spec fn degree(m: Map<usize, Set<usize>>, a: usize) -> nat {
    neighbors(m, a).len()
}

/// The adjacency after relating `a` and `b`: unchanged for a self-relation,
/// else each gains the other as a neighbor.
pub open spec fn edge_added(m: Map<usize, Set<usize>>, a: usize, b: usize) -> Map<usize, Set<
    usize,
>> {
    if a == b {
        m
    } else {
        m.insert(a, neighbors(m, a).insert(b)).insert(b, neighbors(m, b).insert(a))
    }
}

/// `x` ranks strictly before `y`: a higher degree, or the same degree and a
/// smaller id.
pub open spec fn ranks_before(m: Map<usize, Set<usize>>, x: usize, y: usize) -> bool {
    degree(m, x) > degree(m, y) || (degree(m, x) == degree(m, y) && x < y)
}

/// Relating two distinct ids makes each a neighbor of the other.
pub proof fn lemma_relation_symmetric(m: Map<usize, Set<usize>>, a: usize, b: usize)
    requires
        a != b,
    ensures
        neighbors(edge_added(m, a, b), a).contains(b),
        neighbors(edge_added(m, a, b), b).contains(a),
{
    let m2 = edge_added(m, a, b);
    assert(m2.contains_key(b) && m2[b] == neighbors(m, b).insert(a));
    assert(m2.contains_key(a) && m2[a] == neighbors(m, a).insert(b));
}

/// Relating the same pair twice yields the same graph as relating it once.
pub proof fn lemma_relation_idempotent(m: Map<usize, Set<usize>>, a: usize, b: usize)
    ensures
        edge_added(edge_added(m, a, b), a, b) == edge_added(m, a, b),
{
    if a != b {
        let m1 = edge_added(m, a, b);
        let m2 = edge_added(m1, a, b);
        assert(neighbors(m1, a) =~= neighbors(m, a).insert(b));
        assert(neighbors(m1, b) =~= neighbors(m, b).insert(a));
        assert(neighbors(m1, a).insert(b) =~= neighbors(m1, a));
        assert(neighbors(m1, b).insert(a) =~= neighbors(m1, b));
        assert forall|x: usize| m2.contains_key(x) <==> m1.contains_key(x) by {}
        assert forall|x: usize| #[trigger] m2.contains_key(x) implies m2[x] == m1[x] by {
            if x == a {
                assert(m2[a] == neighbors(m1, a).insert(b));
                assert(m1[a] == neighbors(m1, a));
            } else if x == b {
                assert(m2[b] == neighbors(m1, b).insert(a));
                assert(m1[b] == neighbors(m1, b));
            }
        }
        assert(m2 =~= m1);
    }
}

/// A self-relation leaves the graph unchanged.
pub proof fn lemma_self_relation_noop(m: Map<usize, Set<usize>>, a: usize)
    ensures
        edge_added(m, a, a) == m,
{
}

/// The recommendation graph.
pub struct RecGraph {
    adj: AdjMap,
}

impl RecGraph {
    /// The adjacency entries: id → recorded neighbor set.
    pub closed spec fn adj(self) -> Map<usize, Set<usize>> {
        adj_entries(self.adj)
    }

    /// A new, empty graph.
    pub fn new() -> (r: Self)
        ensures
            r.adj() == Map::<usize, Set<usize>>::empty(),
    {
        let r = RecGraph { adj: adj_map_new() };
        proof {
            assert(r.adj() =~= Map::<usize, Set<usize>>::empty());
        }
        r
    }

    /// Relates `a` and `b` symmetrically; a self-relation is ignored.
    /// Relating the same pair again changes nothing.
    pub fn add_edge(&mut self, a: usize, b: usize)
        ensures
            final(self).adj() == edge_added(old(self).adj(), a, b),
    {
        if a == b {
            return ;
        }
        let ghost m0 = self.adj();
        adj_map_add(&mut self.adj, a, b);
        proof {
            assert(self.adj() == m0.insert(a, neighbors(m0, a).insert(b)));
        }
        adj_map_add(&mut self.adj, b, a);
        proof {
            let m1 = m0.insert(a, neighbors(m0, a).insert(b));
            assert(m1.contains_key(b) == m0.contains_key(b));
            if m0.contains_key(b) {
                assert(m1[b] == m0[b]);
            }
            assert((if m1.contains_key(b) {
                m1[b]
            } else {
                Set::<usize>::empty()
            }) =~= neighbors(m0, b));
            assert(self.adj() =~= edge_added(m0, a, b));
        }
    }

    /// The degree of `x` in the graph.
    fn degree_of(&self, x: usize) -> (d: usize)
        ensures
            d == degree(self.adj(), x),
    {
        let v = adj_map_neighbors(&self.adj, x);
        proof {
            v@.unique_seq_to_set();
            if !self.adj().contains_key(x) {
                assert(v@.to_set() =~= Set::<usize>::empty()) by {
                    assert(v@.len() == 0);
                    assert forall|y: usize| !v@.to_set().contains(y) by {
                        assert(!v@.contains(y));
                    }
                }
                assert(neighbors(self.adj(), x).len() == 0);
            }
        }
        v.len()
    }

    /// The first position whose id does not rank strictly before `x`.
    fn rank_pos(&self, r: &Vec<usize>, x: usize, dx: usize) -> (pos: usize)
        requires
            dx == degree(self.adj(), x),
        ensures
            pos <= r@.len(),
            forall|k: int| 0 <= k < pos ==> ranks_before(self.adj(), #[trigger] r@[k], x),
            pos < r@.len() ==> !ranks_before(self.adj(), r@[pos as int], x),
    {
        let mut pos: usize = 0;
        while pos < r.len()
            invariant
                dx == degree(self.adj(), x),
                pos <= r@.len(),
                forall|k: int| 0 <= k < pos ==> ranks_before(self.adj(), #[trigger] r@[k], x),
            decreases r@.len() - pos,
        {
            let y = r[pos];
            let dy = self.degree_of(y);
            if !(dy > dx || (dy == dx && y < x)) {
                return pos;
            }
            pos = pos + 1;
        }
        pos
    }

    /// Inserts `x` into a rank-sorted vector, keeping it sorted. The id must
    /// not already be present.
    fn insert_ranked(&self, r: &mut Vec<usize>, x: usize)
        requires
            forall|p1: int, p2: int|
                0 <= p1 < p2 < old(r)@.len() ==> ranks_before(
                    self.adj(),
                    #[trigger] old(r)@[p1],
                    #[trigger] old(r)@[p2],
                ),
            !old(r)@.contains(x),
            old(r)@.no_duplicates(),
        ensures
            forall|p1: int, p2: int|
                0 <= p1 < p2 < final(r)@.len() ==> ranks_before(
                    self.adj(),
                    #[trigger] final(r)@[p1],
                    #[trigger] final(r)@[p2],
                ),
            final(r)@.to_set() == old(r)@.to_set().insert(x),
            final(r)@.no_duplicates(),
            final(r)@.len() == old(r)@.len() + 1,
    {
        let ghost m = self.adj();
        let dx = self.degree_of(x);
        let pos = self.rank_pos(r, x, dx);
        let ghost prev = r@;
        proof {
            if pos < prev.len() {
                assert(!ranks_before(m, prev[pos as int], x));
                assert(prev[pos as int] != x) by {
                    assert(!prev.contains(x));
                    assert(prev[pos as int] == prev[pos as int]);
                }
                assert(ranks_before(m, x, prev[pos as int]));
            }
        }
        r.insert(pos, x);
        proof {
            prev.insert_ensures(pos as int, x);
            assert forall|p1: int, p2: int|
                0 <= p1 < p2 < r@.len() implies ranks_before(
                m,
                #[trigger] r@[p1],
                #[trigger] r@[p2],
            ) by {
                assert(forall|k: int| 0 <= k < pos ==> r@[k] == prev[k]);
                assert(forall|k: int| pos <= k < prev.len() ==> r@[k + 1] == prev[k]);
                assert(r@[pos as int] == x);
                if p1 < pos && p2 == pos {
                } else if p1 < pos && p2 > pos {
                    assert(r@[p1] == prev[p1] && r@[p2] == prev[p2 - 1]);
                } else if p1 == pos && p2 > pos {
                    assert(r@[p2] == prev[p2 - 1]);
                    assert(ranks_before(m, x, prev[pos as int]));
                    if p2 - 1 > pos {
                        assert(ranks_before(m, prev[pos as int], prev[p2 - 1]));
                    }
                } else if p1 > pos {
                    assert(r@[p1] == prev[p1 - 1] && r@[p2] == prev[p2 - 1]);
                }
            }
            assert(r@ =~= prev.take(pos as int) + seq![x] + prev.skip(pos as int));
            assert forall|y: usize| r@.to_set().contains(y) <==> prev.to_set().insert(x).contains(
                y,
            ) by {
                if r@.contains(y) {
                    let k = choose|k: int| 0 <= k < r@.len() && r@[k] == y;
                    if k < pos {
                        assert(prev[k] == y);
                    } else if k > pos {
                        assert(prev[k - 1] == y);
                    }
                }
                if y == x {
                    assert(r@[pos as int] == y);
                } else if prev.contains(y) {
                    let k = choose|k: int| 0 <= k < prev.len() && prev[k] == y;
                    if k < pos {
                        assert(r@[k] == y);
                    } else {
                        assert(r@[k + 1] == y);
                    }
                }
            }
            assert(r@.to_set() =~= prev.to_set().insert(x));
            assert forall|p1: int, p2: int|
                0 <= p1 < r@.len() && 0 <= p2 < r@.len() && p1 != p2 implies r@[p1] != r@[p2] by {
                if p1 < p2 {
                    assert(ranks_before(m, r@[p1], r@[p2]));
                } else {
                    assert(ranks_before(m, r@[p2], r@[p1]));
                }
            }
        }
    }

    /// The neighbors of `product_id`, ranked by descending degree with ties
    /// broken by ascending id, truncated to `limit`. An unknown id yields an
    /// empty result.
    pub fn recommend(&self, product_id: usize, limit: usize) -> (r: Vec<usize>)
        ensures
            r@.no_duplicates(),
            r@.len() == (if (limit as nat) <= neighbors(self.adj(), product_id).len() {
                limit as nat
            } else {
                neighbors(self.adj(), product_id).len()
            }),
            forall|pos: int|
                0 <= pos < r@.len() ==> neighbors(self.adj(), product_id).contains(
                    #[trigger] r@[pos],
                ),
            forall|p1: int, p2: int|
                0 <= p1 < p2 < r@.len() ==> ranks_before(
                    self.adj(),
                    #[trigger] r@[p1],
                    #[trigger] r@[p2],
                ),
            (limit as nat) >= neighbors(self.adj(), product_id).len() ==> r@.to_set() == neighbors(
                self.adj(),
                product_id,
            ),
            forall|x: usize|
                neighbors(self.adj(), product_id).contains(x) && !r@.to_set().contains(x)
                    ==> (forall|pos: int|
                    0 <= pos < r@.len() ==> ranks_before(self.adj(), #[trigger] r@[pos], x)),
    {
        let ghost m = self.adj();
        let ghost nbrs = neighbors(m, product_id);
        let nv = adj_map_neighbors(&self.adj, product_id);
        proof {
            if !m.contains_key(product_id) {
                assert(nv@.to_set() =~= Set::<usize>::empty()) by {
                    assert(nv@.len() == 0);
                    assert forall|y: usize| !nv@.to_set().contains(y) by {
                        assert(!nv@.contains(y));
                    }
                }
            }
            assert(nv@.to_set() == nbrs);
            nv@.unique_seq_to_set();
        }
        let mut sorted: Vec<usize> = Vec::new();
        let mut i: usize = 0;
        proof {
            assert(sorted@.to_set() =~= nv@.take(0).to_set()) by {
                assert(nv@.take(0) =~= Seq::<usize>::empty());
                assert forall|y: usize| !sorted@.to_set().contains(y) && !nv@.take(
                    0,
                ).to_set().contains(y) by {
                    assert(!sorted@.contains(y));
                    assert(!nv@.take(0).contains(y));
                }
            }
        }
        while i < nv.len()
            invariant
                m == self.adj(),
                nbrs == neighbors(m, product_id),
                i <= nv@.len(),
                nv@.to_set() == nbrs,
                nv@.no_duplicates(),
                sorted@.to_set() == nv@.take(i as int).to_set(),
                sorted@.no_duplicates(),
                sorted@.len() == i,
                forall|p1: int, p2: int|
                    0 <= p1 < p2 < sorted@.len() ==> ranks_before(
                        m,
                        #[trigger] sorted@[p1],
                        #[trigger] sorted@[p2],
                    ),
            decreases nv.len() - i,
        {
            let x = nv[i];
            proof {
                assert(!nv@.take(i as int).contains(x)) by {
                    if nv@.take(i as int).contains(x) {
                        let k = choose|k: int| 0 <= k < i && nv@.take(i as int)[k] == x;
                        assert(nv@[k] == x && nv@[i as int] == x);
                    }
                }
                assert(!sorted@.contains(x)) by {
                    if sorted@.contains(x) {
                        assert(sorted@.to_set().contains(x));
                        assert(nv@.take(i as int).to_set().contains(x));
                        assert(nv@.take(i as int).contains(x));
                    }
                }
            }
            self.insert_ranked(&mut sorted, x);
            proof {
                let t = nv@.take(i as int + 1);
                assert(t.drop_last() =~= nv@.take(i as int));
                assert(t.last() == x);
                assert forall|y: usize| t.to_set().contains(y) <==> nv@.take(
                    i as int,
                ).to_set().insert(x).contains(y) by {
                    if t.contains(y) {
                        let k = choose|k: int| 0 <= k < t.len() && t[k] == y;
                        if k < t.len() - 1 {
                            assert(t.drop_last()[k] == y);
                        }
                    }
                    if y == x {
                        assert(t[t.len() - 1] == y);
                    } else if nv@.take(i as int).contains(y) {
                        let k = choose|k: int| 0 <= k < i && nv@.take(i as int)[k] == y;
                        assert(t[k] == y);
                    }
                }
                assert(t.to_set() =~= nv@.take(i as int).to_set().insert(x));
            }
            i = i + 1;
        }
        proof {
            assert(nv@.take(nv@.len() as int) =~= nv@);
            assert(sorted@.to_set() == nbrs);
            assert(sorted@.len() == nv@.len());
            nv@.unique_seq_to_set();
        }
        let mut out = sorted;
        if out.len() > limit {
            out.truncate(limit);
        }
        proof {
            if nv@.len() > limit {
                assert(out@ =~= sorted@.take(limit as int));
            } else {
                assert(out@ =~= sorted@);
            }
            assert forall|pos: int| 0 <= pos < out@.len() implies nbrs.contains(
                #[trigger] out@[pos],
            ) by {
                assert(out@[pos] == sorted@[pos]);
                assert(sorted@.contains(sorted@[pos]));
                assert(sorted@.to_set().contains(sorted@[pos]));
            }
            assert forall|p1: int, p2: int|
                0 <= p1 < out@.len() && 0 <= p2 < out@.len() && p1 != p2 implies out@[p1]
                != out@[p2] by {
                assert(out@[p1] == sorted@[p1] && out@[p2] == sorted@[p2]);
            }
            if (limit as nat) >= nbrs.len() {
                assert(out@ =~= sorted@);
            }
            assert forall|x: usize|
                nbrs.contains(x) && !out@.to_set().contains(x) implies (forall|pos: int|
                0 <= pos < out@.len() ==> ranks_before(m, #[trigger] out@[pos], x)) by {
                assert(sorted@.to_set().contains(x));
                assert(sorted@.contains(x));
                let q = choose|q: int| 0 <= q < sorted@.len() && sorted@[q] == x;
                assert forall|pos: int| 0 <= pos < out@.len() implies ranks_before(
                    m,
                    #[trigger] out@[pos],
                    x,
                ) by {
                    assert(out@[pos] == sorted@[pos]);
                    assert(q >= out@.len()) by {
                        if q < out@.len() {
                            assert(out@[q] == sorted@[q]);
                            assert(out@.to_set().contains(x)) by {
                                assert(out@.contains(x));
                            }
                        }
                    }
                    assert(ranks_before(m, sorted@[pos], sorted@[q]));
                }
            }
        }
        out
    }
}

} // verus!
