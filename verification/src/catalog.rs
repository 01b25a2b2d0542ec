//! The catalog: the canonical item store and the coordinator of the three
//! indexes.
//!
//! Items are held in an append-only arena keyed by id (the item with id `n`
//! stands at position `n - 1`), and every write keeps the inverted token
//! index and the ordered name index synchronized with the store.

use vstd::prelude::*;
use crate::graph::RecGraph;
use crate::graph::edge_added;
use crate::graph::neighbors;
use crate::graph::ranks_before;
use crate::name_index::NameBTree;
use crate::name_index::has_key;
use crate::name_index::key_seq;
use crate::name_index::lemma_has_key_exists;
use crate::name_index::lemma_key_seq_absent;
use crate::name_index::lemma_key_seq_at;
use crate::name_index::lemma_matching_has_entry;
use crate::name_index::lex_le;
use crate::name_index::matching_ids;
use crate::name_index::ordered_under;
use crate::name_index::under_prefix;
use crate::name_index::under_prefix_at;
use crate::name_index::key_eq;
use crate::product::Product;
use crate::product::product_tokens;
use crate::token_index::HashIndex;
use crate::token_index::and_ids;
use crate::token_index::ids_of;
use crate::token_index::strictly_ascending;
use crate::tokenizer::chars_of;
use crate::tokenizer::lower_of;
use crate::tokenizer::lowercase;
use crate::tokenizer::tokenize;
use crate::tokenizer::tokens_of;
use crate::tokenizer::views_of;

verus! {

/// Whether the item holds every token of `toks`. An empty token sequence
/// matches nothing.
pub open spec fn product_matches(p: Product, toks: Seq<Seq<char>>) -> bool {
    toks.len() > 0 && forall|t: Seq<char>|
        #[trigger] toks.contains(t) ==> product_tokens(p).contains(t)
}

/// Whether the result sequence holds the item.
pub open spec fn holds_item(r: Seq<&Product>, p: Product) -> bool {
    exists|j: int| 0 <= j < r.len() && *(#[trigger] r[j]) == p
}

/// Item at position `i` carries id `i + 1`.
pub open spec fn ids_assigned(ps: Seq<Product>) -> bool {
    forall|i: int| 0 <= i < ps.len() ==> (#[trigger] ps[i]).id == i + 1
}

/// The token index records exactly the ids of the items that produced each
/// token.
pub open spec fn token_index_ok(e: Map<Seq<char>, Set<usize>>, ps: Seq<Product>) -> bool {
    &&& forall|t: Seq<char>, id: usize|
        e.contains_key(t) && #[trigger] e[t].contains(id) ==> 1 <= id <= ps.len()
            && product_tokens(ps[id as int - 1]).contains(t)
    &&& forall|t: Seq<char>, i: int|
        0 <= i < ps.len() && #[trigger] product_tokens(ps[i]).contains(t) ==> e.contains_key(t)
            && e[t].contains((i + 1) as usize)
}

/// The name index records exactly the ids of the items under their normalized
/// names, in ascending id order within a key.
pub open spec fn name_index_ok(m: Seq<(Seq<char>, Seq<usize>)>, ps: Seq<Product>) -> bool {
    &&& forall|ei: int, j: int|
        0 <= ei < m.len() && 0 <= j < m[ei].1.len() ==> ({
            let id = #[trigger] m[ei].1[j];
            1 <= id <= ps.len() && lower_of(ps[id as int - 1].name@) == m[ei].0
        })
    &&& forall|i: int|
        0 <= i < ps.len() ==> has_key(m, lower_of((#[trigger] ps[i]).name@)) && key_seq(
            m,
            lower_of(ps[i].name@),
        ).contains((i + 1) as usize)
    &&& forall|ei: int| 0 <= ei < m.len() ==> strictly_ascending((#[trigger] m[ei]).1)
}

/// The catalog: the item arena, the id counter, and the three indexes.
pub struct Catalog {
    products: Vec<Product>,
    next_id: usize,
    hash_index: HashIndex,
    rec_graph: RecGraph,
    name_tree: NameBTree,
}

impl Catalog {
    /// The stored items, in insertion order.
    pub closed spec fn items(self) -> Seq<Product> {
        self.products@
    }

    /// The token index entries.
    pub closed spec fn token_map(self) -> Map<Seq<char>, Set<usize>> {
        self.hash_index.entries()
    }

    /// The name index entries.
    pub closed spec fn name_map(self) -> Seq<(Seq<char>, Seq<usize>)> {
        self.name_tree.model()
    }

    /// The relation graph adjacency.
    pub closed spec fn graph_map(self) -> Map<usize, Set<usize>> {
        self.rec_graph.adj()
    }

    /// Well-formed: ids are sequential, and the two search indexes agree
    /// exactly with the item store.
    pub closed spec fn wf(self) -> bool {
        &&& self.next_id as int == self.products@.len() + 1
        &&& ids_assigned(self.products@)
        &&& token_index_ok(self.hash_index.entries(), self.products@)
        &&& self.name_tree.wf()
        &&& name_index_ok(self.name_tree.model(), self.products@)
    }

    /// A new, empty catalog. The first assigned id will be 1.
    pub fn new() -> (r: Self)
        ensures
            r.wf(),
            r.items().len() == 0,
            r.graph_map() == Map::<usize, Set<usize>>::empty(),
    {
        let r = Catalog {
            products: Vec::new(),
            next_id: 1,
            hash_index: HashIndex::new(),
            rec_graph: RecGraph::new(),
            name_tree: NameBTree::new(),
        };
        r
    }

    /// Stores the item under the next sequential id (ignoring any id the
    /// caller put in it), indexes its name, brand and category, and returns
    /// the assigned id. Ids start at 1 and increase by 1 with each call.
    pub fn add_product(&mut self, p: Product) -> (id: usize)
        requires
            old(self).wf(),
            old(self).items().len() < usize::MAX - 1,
        ensures
            final(self).wf(),
            id == old(self).items().len() + 1,
            final(self).items() == old(self).items().push(
                (Product {
                    id: id,
                    name: p.name,
                    brand: p.brand,
                    category: p.category,
                    description: p.description,
                }),
            ),
            final(self).graph_map() == old(self).graph_map(),
    {
        let ghost ps0 = self.products@;
        let ghost e0 = self.hash_index.entries();
        let ghost m0 = self.name_tree.model();
        let mut p = p;
        let id = self.next_id;
        p.id = id;
        let ghost pg = p;
        self.hash_index.index_product(&p);
        self.name_tree.insert(p.name.as_str(), id);
        self.next_id = self.next_id + 1;
        self.products.push(p);
        proof {
            let ps1 = self.products@;
            let e1 = self.hash_index.entries();
            let m1 = self.name_tree.model();
            let n = ps0.len() as int;
            let k = lower_of(pg.name@);
            assert(ps1 == ps0.push(pg));
            assert(ps1[n] == pg);
            assert(forall|i: int| 0 <= i < n ==> #[trigger] ps1[i] == ps0[i]);
            assert(ids_assigned(ps1));
            assert(token_index_ok(e1, ps1)) by {
                assert forall|t: Seq<char>, idx: usize|
                    e1.contains_key(t) && #[trigger] e1[t].contains(idx) implies 1 <= idx
                    <= ps1.len() && product_tokens(ps1[idx as int - 1]).contains(t) by {
                    if product_tokens(pg).contains(t) {
                        assert(e1[t] == ids_of(e0, t).insert(id));
                        if idx == id {
                            assert(ps1[idx as int - 1] == pg);
                        } else {
                            assert(ids_of(e0, t).contains(idx));
                            assert(e0.contains_key(t) && e0[t].contains(idx));
                        }
                    } else {
                        assert(e0.contains_key(t));
                        assert(e1[t] == e0[t]);
                    }
                }
                assert forall|t: Seq<char>, i: int|
                    0 <= i < ps1.len() && #[trigger] product_tokens(ps1[i]).contains(
                        t,
                    ) implies e1.contains_key(t) && e1[t].contains((i + 1) as usize) by {
                    if i < n {
                        assert(product_tokens(ps0[i]).contains(t));
                        assert(e0.contains_key(t) && e0[t].contains((i + 1) as usize));
                        if product_tokens(pg).contains(t) {
                            assert(e1[t] == ids_of(e0, t).insert(id));
                            assert(ids_of(e0, t) == e0[t]);
                        } else {
                            assert(e1[t] == e0[t]);
                        }
                    } else {
                        assert(ps1[i] == pg);
                        assert(e1[t] == ids_of(e0, t).insert(id));
                    }
                }
            }
            assert(name_index_ok(m1, ps1)) by {
                assert forall|ei: int, j: int|
                    0 <= ei < m1.len() && 0 <= j < m1[ei].1.len() implies ({
                        let idx = #[trigger] m1[ei].1[j];
                        1 <= idx <= ps1.len() && lower_of(ps1[idx as int - 1].name@) == m1[ei].0
                    }) by {
                    let k2 = m1[ei].0;
                    lemma_key_seq_at(m1, ei);
                    if k2 == k {
                        assert(m1[ei].1 == key_seq(m0, k).push(id));
                        if j < m1[ei].1.len() - 1 {
                            assert(key_seq(m0, k)[j] == m1[ei].1[j]);
                            lemma_has_key_exists(m0, k);
                            if has_key(m0, k) {
                                let ei0 = choose|i: int|
                                    0 <= i < m0.len() && (#[trigger] m0[i].0) == k;
                                lemma_key_seq_at(m0, ei0);
                                assert(m0[ei0].1[j] == m1[ei].1[j]);
                            } else {
                                lemma_key_seq_absent(m0, k);
                            }
                        } else {
                            assert(m1[ei].1[j] == id);
                            assert(ps1[id as int - 1] == pg);
                        }
                    } else {
                        assert(key_seq(m1, k2) == key_seq(m0, k2));
                        assert(has_key(m1, k2)) by {
                            lemma_has_key_exists(m1, k2);
                        }
                        assert(has_key(m0, k2));
                        lemma_has_key_exists(m0, k2);
                        let ei0 = choose|i: int| 0 <= i < m0.len() && (#[trigger] m0[i].0) == k2;
                        lemma_key_seq_at(m0, ei0);
                        assert(m0[ei0].1 == m1[ei].1);
                        assert(m0[ei0].1[j] == m1[ei].1[j]);
                    }
                }
                assert forall|i: int| 0 <= i < ps1.len() implies has_key(
                    m1,
                    lower_of((#[trigger] ps1[i]).name@),
                ) && key_seq(m1, lower_of(ps1[i].name@)).contains((i + 1) as usize) by {
                    if i < n {
                        let ki = lower_of(ps0[i].name@);
                        assert(has_key(m0, ki) && key_seq(m0, ki).contains((i + 1) as usize));
                        if ki == k {
                            assert(key_seq(m1, k) == key_seq(m0, k).push(id));
                            let jj = choose|jj: int|
                                0 <= jj < key_seq(m0, ki).len() && key_seq(m0, ki)[jj] == (i
                                    + 1) as usize;
                            assert(key_seq(m1, ki)[jj] == (i + 1) as usize);
                        } else {
                            assert(key_seq(m1, ki) == key_seq(m0, ki));
                        }
                    } else {
                        assert(ps1[i] == pg);
                        assert(key_seq(m1, k) == key_seq(m0, k).push(id));
                        let l = key_seq(m1, k).len();
                        assert(key_seq(m1, k)[l - 1] == id);
                    }
                }
                assert forall|ei: int| 0 <= ei < m1.len() implies strictly_ascending(
                    (#[trigger] m1[ei]).1,
                ) by {
                    let k2 = m1[ei].0;
                    lemma_key_seq_at(m1, ei);
                    if k2 == k {
                        assert(m1[ei].1 == key_seq(m0, k).push(id));
                        lemma_has_key_exists(m0, k);
                        if has_key(m0, k) {
                            let ei0 = choose|i: int| 0 <= i < m0.len() && (#[trigger] m0[i].0) == k;
                            lemma_key_seq_at(m0, ei0);
                            assert(strictly_ascending(m0[ei0].1));
                            let s = m1[ei].1;
                            assert forall|a: int, b: int| 0 <= a < b < s.len() implies s[a]
                                < s[b] by {
                                if b < s.len() - 1 {
                                    assert(m0[ei0].1[a] == s[a] && m0[ei0].1[b] == s[b]);
                                } else {
                                    assert(s[b] == id);
                                    assert(m0[ei0].1[a] == s[a]);
                                    assert(1 <= s[a] <= ps0.len());
                                }
                            }
                        } else {
                            lemma_key_seq_absent(m0, k);
                            assert(m1[ei].1.len() == 1);
                        }
                    } else {
                        assert(key_seq(m1, k2) == key_seq(m0, k2));
                        assert(has_key(m1, k2)) by {
                            lemma_has_key_exists(m1, k2);
                        }
                        lemma_has_key_exists(m0, k2);
                        let ei0 = choose|i: int| 0 <= i < m0.len() && (#[trigger] m0[i].0) == k2;
                        lemma_key_seq_at(m0, ei0);
                        assert(m0[ei0].1 == m1[ei].1);
                        assert(strictly_ascending(m0[ei0].1));
                    }
                }
            }
        }
        id
    }

    /// The AND result holds an id exactly when a stored item with that id
    /// holds every query token.
    proof fn lemma_and_matches(
        e: Map<Seq<char>, Set<usize>>,
        tv: Seq<Seq<char>>,
        ps: Seq<Product>,
        id: usize,
    )
        requires
            token_index_ok(e, ps),
            tv.len() > 0,
        ensures
            and_ids(e, tv).contains(id) <==> (1 <= id <= ps.len() && forall|t: Seq<char>|
                #[trigger] tv.contains(t) ==> product_tokens(ps[id as int - 1]).contains(t)),
        decreases tv.len(),
    {
        if tv.len() == 1 {
            assert(and_ids(e, tv) == ids_of(e, tv[0]));
            if and_ids(e, tv).contains(id) {
                assert(e.contains_key(tv[0]) && e[tv[0]].contains(id));
                assert forall|t: Seq<char>| #[trigger] tv.contains(t) implies product_tokens(
                    ps[id as int - 1],
                ).contains(t) by {
                    let k = choose|k: int| 0 <= k < tv.len() && tv[k] == t;
                    assert(t == tv[0]);
                }
            }
            if 1 <= id <= ps.len() && (forall|t: Seq<char>|
                #[trigger] tv.contains(t) ==> product_tokens(ps[id as int - 1]).contains(t)) {
                assert(tv[0] == tv[0]);
                assert(tv.contains(tv[0]));
                assert(product_tokens(ps[id as int - 1]).contains(tv[0]));
                assert(e.contains_key(tv[0]) && e[tv[0]].contains(
                    ((id as int - 1) + 1) as usize,
                ));
                assert(((id as int - 1) + 1) as usize == id);
            }
        } else {
            let tvd = tv.drop_last();
            Self::lemma_and_matches(e, tvd, ps, id);
            assert(and_ids(e, tv) == and_ids(e, tvd).intersect(ids_of(e, tv.last())));
            if and_ids(e, tv).contains(id) {
                assert(and_ids(e, tvd).contains(id));
                assert(ids_of(e, tv.last()).contains(id));
                assert(e.contains_key(tv.last()) && e[tv.last()].contains(id));
                assert forall|t: Seq<char>| #[trigger] tv.contains(t) implies product_tokens(
                    ps[id as int - 1],
                ).contains(t) by {
                    let k = choose|k: int| 0 <= k < tv.len() && tv[k] == t;
                    if k < tv.len() - 1 {
                        assert(tvd[k] == t);
                        assert(tvd.contains(t));
                    } else {
                        assert(t == tv.last());
                    }
                }
            }
            if 1 <= id <= ps.len() && (forall|t: Seq<char>|
                #[trigger] tv.contains(t) ==> product_tokens(ps[id as int - 1]).contains(t)) {
                assert forall|t: Seq<char>| #[trigger] tvd.contains(t) implies product_tokens(
                    ps[id as int - 1],
                ).contains(t) by {
                    let k = choose|k: int| 0 <= k < tvd.len() && tvd[k] == t;
                    assert(tv[k] == t);
                    assert(tv.contains(t));
                }
                assert(and_ids(e, tvd).contains(id));
                assert(tv[tv.len() - 1] == tv.last());
                assert(tv.contains(tv.last()));
                assert(product_tokens(ps[id as int - 1]).contains(tv.last()));
                assert(e.contains_key(tv.last()) && e[tv.last()].contains(
                    ((id as int - 1) + 1) as usize,
                ));
                assert(((id as int - 1) + 1) as usize == id);
            }
        }
    }

    /// An id under a prefix-matching key resolves to a stored item whose
    /// normalized name carries the prefix.
    proof fn lemma_under_prefix_resolve(
        m: Seq<(Seq<char>, Seq<usize>)>,
        ps: Seq<Product>,
        p: Seq<char>,
        id: usize,
    )
        requires
            name_index_ok(m, ps),
            under_prefix(m, p, id),
        ensures
            1 <= id <= ps.len(),
            p.is_prefix_of(lower_of(ps[id as int - 1].name@)),
    {
        let k = choose|k: Seq<char>| #[trigger] under_prefix_at(m, p, k, id);
        assert(under_prefix_at(m, p, k, id));
        let ei = choose|ei: int|
            0 <= ei < m.len() && (#[trigger] m[ei].0) == k && p.is_prefix_of(k)
                && m[ei].1.contains(id);
        assert(m[ei].1.contains(id));
        let j = choose|j: int| 0 <= j < m[ei].1.len() && m[ei].1[j] == id;
        assert(m[ei].1[j] == id);
        assert(1 <= id <= ps.len() && lower_of(ps[id as int - 1].name@) == m[ei].0);
    }

    /// Two ids under ordered prefix-matching keys resolve to items whose
    /// normalized names stand in that order.
    proof fn lemma_ordered_resolve(
        m: Seq<(Seq<char>, Seq<usize>)>,
        ps: Seq<Product>,
        p: Seq<char>,
        id1: usize,
        id2: usize,
    )
        requires
            name_index_ok(m, ps),
            ordered_under(m, p, id1, id2),
        ensures
            1 <= id1 <= ps.len(),
            1 <= id2 <= ps.len(),
            lex_le(lower_of(ps[id1 as int - 1].name@), lower_of(ps[id2 as int - 1].name@)),
    {
        let (k1, k2) = choose|k1: Seq<char>, k2: Seq<char>|
            #[trigger] under_prefix_at(m, p, k1, id1) && #[trigger] under_prefix_at(m, p, k2, id2)
                && lex_le(k1, k2);
        let e1 = choose|ei: int|
            0 <= ei < m.len() && (#[trigger] m[ei].0) == k1 && p.is_prefix_of(k1)
                && m[ei].1.contains(id1);
        let j1 = choose|j: int| 0 <= j < m[e1].1.len() && m[e1].1[j] == id1;
        assert(m[e1].1[j1] == id1);
        assert(lower_of(ps[id1 as int - 1].name@) == m[e1].0);
        let e2 = choose|ei: int|
            0 <= ei < m.len() && (#[trigger] m[ei].0) == k2 && p.is_prefix_of(k2)
                && m[ei].1.contains(id2);
        let j2 = choose|j: int| 0 <= j < m[e2].1.len() && m[e2].1[j] == id2;
        assert(m[e2].1[j2] == id2);
        assert(lower_of(ps[id2 as int - 1].name@) == m[e2].0);
    }

    /// Tokenizes the query and returns the stored items holding every token,
    /// in ascending id order. An empty or unmatched query yields an empty
    /// result.
    pub fn search_tokens<'a>(&'a self, query: &str) -> (r: Vec<&'a Product>)
        requires
            self.wf(),
        ensures
            forall|j: int|
                0 <= j < r@.len() ==> ({
                    let q = *(#[trigger] r@[j]);
                    &&& 1 <= q.id <= self.items().len()
                    &&& q == self.items()[q.id as int - 1]
                    &&& product_matches(q, tokens_of(query@))
                }),
            forall|i: int|
                0 <= i < self.items().len() && product_matches(
                    #[trigger] self.items()[i],
                    tokens_of(query@),
                ) ==> holds_item(r@, self.items()[i]),
            forall|j1: int, j2: int| 0 <= j1 < j2 < r@.len() ==> r@[j1].id < r@[j2].id,
            tokens_of(query@).len() == 0 ==> r@.len() == 0,
            query@.len() == 0 ==> r@.len() == 0,
    {
        let ghost ps = self.products@;
        let ghost e = self.hash_index.entries();
        let toks = tokenize(query);
        let ids = self.hash_index.search_tokens_and(toks.as_slice());
        let ghost tv = tokens_of(query@);
        proof {
            assert(views_of(toks@) == tv);
            assert(ids@.to_set() == and_ids(e, tv));
            if tv.len() == 0 {
                assert(ids@.len() == 0) by {
                    if ids@.len() > 0 {
                        assert(ids@.contains(ids@[0]));
                        assert(ids@.to_set().contains(ids@[0]));
                    }
                }
            }
            assert forall|k: int| 0 <= k < ids@.len() implies 1 <= #[trigger] ids@[k]
                <= ps.len() by {
                assert(ids@.contains(ids@[k]));
                assert(ids@.to_set().contains(ids@[k]));
                Self::lemma_and_matches(e, tv, ps, ids@[k]);
            }
        }
        let mut out: Vec<&Product> = Vec::new();
        let mut j: usize = 0;
        while j < ids.len()
            invariant
                self.wf(),
                ps == self.products@,
                j <= ids@.len(),
                forall|k: int| 0 <= k < ids@.len() ==> 1 <= #[trigger] ids@[k] <= ps.len(),
                out@.len() == j,
                forall|jj: int|
                    0 <= jj < j ==> *(#[trigger] out@[jj]) == ps[ids@[jj] as int - 1],
            decreases ids.len() - j,
        {
            let id = ids[j];
            proof {
                assert(1 <= ids@[j as int] <= ps.len());
            }
            let q: &Product = &self.products[id - 1];
            out.push(q);
            j = j + 1;
        }
        proof {
            assert forall|j2: int|
                0 <= j2 < out@.len() implies ({
                    let q = *(#[trigger] out@[j2]);
                    &&& 1 <= q.id <= ps.len()
                    &&& q == ps[q.id as int - 1]
                    &&& product_matches(q, tv)
                }) by {
                let idv = ids@[j2];
                assert(*(out@[j2]) == ps[idv as int - 1]);
                assert(ps[idv as int - 1].id == idv);
                assert(ids@.contains(idv));
                assert(ids@.to_set().contains(idv));
                assert(tv.len() > 0);
                Self::lemma_and_matches(e, tv, ps, idv);
            }
            assert forall|i: int|
                0 <= i < ps.len() && product_matches(#[trigger] ps[i], tv) implies holds_item(
                out@,
                ps[i],
            ) by {
                let idv = (i + 1) as usize;
                Self::lemma_and_matches(e, tv, ps, idv);
                assert(ps[idv as int - 1] == ps[i]);
                assert(and_ids(e, tv).contains(idv));
                assert(ids@.to_set().contains(idv));
                assert(ids@.contains(idv));
                let jj = choose|jj: int| 0 <= jj < ids@.len() && ids@[jj] == idv;
                assert(*(out@[jj]) == ps[i]);
            }
            assert forall|j1: int, j2: int| 0 <= j1 < j2 < out@.len() implies out@[j1].id
                < out@[j2].id by {
                assert(*(out@[j1]) == ps[ids@[j1] as int - 1]);
                assert(*(out@[j2]) == ps[ids@[j2] as int - 1]);
                assert(ps[ids@[j1] as int - 1].id == ids@[j1]);
                assert(ps[ids@[j2] as int - 1].id == ids@[j2]);
                assert(ids@[j1] < ids@[j2]);
            }
        }
        out
    }

    /// Returns all stored items whose name equals `name` case-insensitively,
    /// in insertion order.
    pub fn search_exact_name<'a>(&'a self, name: &str) -> (r: Vec<&'a Product>)
        requires
            self.wf(),
        ensures
            forall|j: int|
                0 <= j < r@.len() ==> ({
                    let q = *(#[trigger] r@[j]);
                    &&& 1 <= q.id <= self.items().len()
                    &&& q == self.items()[q.id as int - 1]
                    &&& lower_of(q.name@) == lower_of(name@)
                }),
            forall|i: int|
                0 <= i < self.items().len() && lower_of((#[trigger] self.items()[i]).name@)
                    == lower_of(name@) ==> holds_item(r@, self.items()[i]),
            forall|j1: int, j2: int| 0 <= j1 < j2 < r@.len() ==> r@[j1].id < r@[j2].id,
    {
        let ghost ps = self.products@;
        let low = lowercase(name);
        let key = chars_of(low.as_str());
        let mut out: Vec<&Product> = Vec::new();
        let mut i: usize = 0;
        while i < self.products.len()
            invariant
                self.wf(),
                ps == self.products@,
                key@ == lower_of(name@),
                i <= ps.len(),
                forall|j: int|
                    0 <= j < out@.len() ==> ({
                        let q = *(#[trigger] out@[j]);
                        &&& 1 <= q.id <= i
                        &&& q == ps[q.id as int - 1]
                        &&& lower_of(q.name@) == lower_of(name@)
                    }),
                forall|ii: int|
                    0 <= ii < i && lower_of((#[trigger] ps[ii]).name@) == lower_of(name@)
                        ==> holds_item(out@, ps[ii]),
                forall|j1: int, j2: int|
                    0 <= j1 < j2 < out@.len() ==> (#[trigger] out@[j1]).id < (
                    #[trigger] out@[j2]).id,
            decreases self.products.len() - i,
        {
            let ghost out0 = out@;
            let q: &Product = &self.products[i];
            let low_q = lowercase(q.name.as_str());
            let kq = chars_of(low_q.as_str());
            if key_eq(&kq, &key) {
                out.push(q);
                proof {
                    assert(*q == ps[i as int]);
                    assert(ps[i as int].id == i + 1);
                    assert(out@[out@.len() - 1] == q);
                }
            }
            proof {
                assert forall|ii: int|
                    0 <= ii < i + 1 && lower_of((#[trigger] ps[ii]).name@) == lower_of(
                        name@,
                    ) implies holds_item(out@, ps[ii]) by {
                    if ii < i {
                        assert(holds_item(out0, ps[ii]));
                        let j = choose|j: int| 0 <= j < out0.len() && *(#[trigger] out0[j]) == ps[ii];
                        assert(*(out@[j]) == ps[ii]);
                    } else {
                        assert(lower_of(ps[i as int].name@) == lower_of(name@));
                        assert(*(out@[out@.len() - 1]) == ps[ii]);
                    }
                }
            }
            i = i + 1;
        }
        out
    }

    /// Returns up to `limit` stored items whose normalized name starts with
    /// the normalized prefix, in ascending name order (ties in insertion
    /// order).
    pub fn search_prefix_ordered<'a>(&'a self, prefix: &str, limit: usize) -> (r: Vec<
        &'a Product,
    >)
        requires
            self.wf(),
        ensures
            r@.len() <= limit,
            forall|j: int|
                0 <= j < r@.len() ==> ({
                    let q = *(#[trigger] r@[j]);
                    &&& 1 <= q.id <= self.items().len()
                    &&& q == self.items()[q.id as int - 1]
                    &&& lower_of(prefix@).is_prefix_of(lower_of(q.name@))
                }),
            forall|j1: int, j2: int|
                0 <= j1 < j2 < r@.len() ==> lex_le(
                    lower_of(r@[j1].name@),
                    lower_of(r@[j2].name@),
                ),
            r@.len() < limit ==> (forall|i: int|
                0 <= i < self.items().len() && lower_of(prefix@).is_prefix_of(
                    lower_of((#[trigger] self.items()[i]).name@),
                ) ==> holds_item(r@, self.items()[i])),
    {
        let ghost ps = self.products@;
        let ghost m = self.name_tree.model();
        let ghost p = lower_of(prefix@);
        let ids = self.name_tree.search_prefix(prefix, limit);
        proof {
            assert forall|pos: int| 0 <= pos < ids@.len() implies 1 <= #[trigger] ids@[pos]
                <= ps.len() by {
                Self::lemma_under_prefix_resolve(m, ps, p, ids@[pos]);
            }
        }
        let mut out: Vec<&Product> = Vec::new();
        let mut j: usize = 0;
        while j < ids.len()
            invariant
                self.wf(),
                ps == self.products@,
                j <= ids@.len(),
                forall|k: int| 0 <= k < ids@.len() ==> 1 <= #[trigger] ids@[k] <= ps.len(),
                out@.len() == j,
                forall|jj: int|
                    0 <= jj < j ==> *(#[trigger] out@[jj]) == ps[ids@[jj] as int - 1],
            decreases ids.len() - j,
        {
            let id = ids[j];
            proof {
                assert(1 <= ids@[j as int] <= ps.len());
            }
            let q: &Product = &self.products[id - 1];
            out.push(q);
            j = j + 1;
        }
        proof {
            assert forall|j2: int|
                0 <= j2 < out@.len() implies ({
                    let q = *(#[trigger] out@[j2]);
                    &&& 1 <= q.id <= ps.len()
                    &&& q == ps[q.id as int - 1]
                    &&& p.is_prefix_of(lower_of(q.name@))
                }) by {
                let idv = ids@[j2];
                assert(*(out@[j2]) == ps[idv as int - 1]);
                assert(ps[idv as int - 1].id == idv);
                Self::lemma_under_prefix_resolve(m, ps, p, idv);
            }
            assert forall|j1: int, j2: int| 0 <= j1 < j2 < out@.len() implies lex_le(
                lower_of(out@[j1].name@),
                lower_of(out@[j2].name@),
            ) by {
                let id1 = ids@[j1];
                let id2 = ids@[j2];
                assert(ordered_under(m, p, id1, id2));
                Self::lemma_ordered_resolve(m, ps, p, id1, id2);
                assert(*(out@[j1]) == ps[id1 as int - 1]);
                assert(*(out@[j2]) == ps[id2 as int - 1]);
            }
            if out@.len() < limit {
                let matches = matching_ids(m, p);
                assert(ids@ == matches.take(
                    if (limit as int) <= matches.len() {
                        limit as int
                    } else {
                        matches.len() as int
                    },
                ));
                assert(ids@.len() < limit);
                assert(matches.len() < limit);
                assert(ids@ =~= matches);
                assert forall|i: int|
                    0 <= i < ps.len() && p.is_prefix_of(
                        lower_of((#[trigger] ps[i]).name@),
                    ) implies holds_item(out@, ps[i]) by {
                    let ki = lower_of(ps[i].name@);
                    assert(has_key(m, ki) && key_seq(m, ki).contains((i + 1) as usize));
                    lemma_has_key_exists(m, ki);
                    let ei = choose|ei: int| 0 <= ei < m.len() && (#[trigger] m[ei].0) == ki;
                    lemma_key_seq_at(m, ei);
                    assert(m[ei].1.contains((i + 1) as usize));
                    lemma_matching_has_entry(m, p, ei, (i + 1) as usize);
                    assert(matches.contains((i + 1) as usize));
                    let pos = choose|pos: int|
                        0 <= pos < matches.len() && matches[pos] == (i + 1) as usize;
                    assert(ids@[pos] == (i + 1) as usize);
                    assert(*(out@[pos]) == ps[i]);
                }
            }
        }
        out
    }

    /// Returns up to `limit` stored items related to `product_id`, ranked by
    /// descending degree with ties broken by ascending id. Related ids that
    /// name no stored item are dropped; an unknown id yields an empty result.
    pub fn recommend_for<'a>(&'a self, product_id: usize, limit: usize) -> (r: Vec<&'a Product>)
        requires
            self.wf(),
        ensures
            r@.len() <= limit,
            forall|j: int|
                0 <= j < r@.len() ==> ({
                    let q = *(#[trigger] r@[j]);
                    &&& 1 <= q.id <= self.items().len()
                    &&& q == self.items()[q.id as int - 1]
                    &&& neighbors(self.graph_map(), product_id).contains(q.id)
                }),
            forall|j1: int, j2: int|
                0 <= j1 < j2 < r@.len() ==> ranks_before(
                    self.graph_map(),
                    r@[j1].id,
                    r@[j2].id,
                ),
            (limit as nat) >= neighbors(self.graph_map(), product_id).len() ==> (forall|x: usize|
                #[trigger] neighbors(self.graph_map(), product_id).contains(x) && 1 <= x
                    <= self.items().len() ==> holds_item(r@, self.items()[x as int - 1])),
    {
        let ghost ps = self.products@;
        let ghost g = self.rec_graph.adj();
        let ghost nbrs = neighbors(g, product_id);
        let ids = self.rec_graph.recommend(product_id, limit);
        let mut out: Vec<&Product> = Vec::new();
        let mut j: usize = 0;
        while j < ids.len()
            invariant
                self.wf(),
                ps == self.products@,
                g == self.rec_graph.adj(),
                nbrs == neighbors(g, product_id),
                j <= ids@.len(),
                ids@.len() <= limit,
                forall|pos: int| 0 <= pos < ids@.len() ==> nbrs.contains(#[trigger] ids@[pos]),
                forall|p1: int, p2: int|
                    0 <= p1 < p2 < ids@.len() ==> ranks_before(
                        g,
                        #[trigger] ids@[p1],
                        #[trigger] ids@[p2],
                    ),
                out@.len() <= j,
                forall|jj: int|
                    0 <= jj < out@.len() ==> ({
                        let q = *(#[trigger] out@[jj]);
                        &&& 1 <= q.id <= ps.len()
                        &&& q == ps[q.id as int - 1]
                        &&& nbrs.contains(q.id)
                    }),
                forall|jj: int|
                    0 <= jj < out@.len() ==> (exists|k: int|
                        0 <= k < j && ids@[k] == (#[trigger] out@[jj]).id),
                forall|j1: int, j2: int|
                    0 <= j1 < j2 < out@.len() ==> ranks_before(
                        g,
                        (#[trigger] out@[j1]).id,
                        (#[trigger] out@[j2]).id,
                    ),
                forall|k: int|
                    0 <= k < j && 1 <= #[trigger] ids@[k] <= ps.len() ==> holds_item(
                        out@,
                        ps[ids@[k] as int - 1],
                    ),
            decreases ids.len() - j,
        {
            let ghost out0 = out@;
            let id = ids[j];
            if 1 <= id && id <= self.products.len() {
                let q: &Product = &self.products[id - 1];
                out.push(q);
                proof {
                    assert(*q == ps[id as int - 1]);
                    assert(ps[id as int - 1].id == id);
                    assert(out@[out@.len() - 1] == q);
                    assert(nbrs.contains(ids@[j as int]));
                    assert forall|jj: int|
                        0 <= jj < out@.len() implies (exists|k: int|
                            0 <= k < j + 1 && ids@[k] == (#[trigger] out@[jj]).id) by {
                        if jj < out0.len() {
                            assert(out@[jj] == out0[jj]);
                            let k = choose|k: int| 0 <= k < j && ids@[k] == out0[jj].id;
                            assert(ids@[k] == out@[jj].id);
                        } else {
                            assert(ids@[j as int] == out@[jj].id);
                        }
                    }
                    assert forall|j1: int, j2: int|
                        0 <= j1 < j2 < out@.len() implies ranks_before(
                        g,
                        (#[trigger] out@[j1]).id,
                        (#[trigger] out@[j2]).id,
                    ) by {
                        if j2 < out0.len() {
                        } else {
                            assert(out@[j1] == out0[j1]);
                            let k = choose|k: int| 0 <= k < j && ids@[k] == out0[j1].id;
                            assert(out@[j2].id == ids@[j as int]);
                            assert(ranks_before(g, ids@[k], ids@[j as int]));
                        }
                    }
                    assert forall|k: int|
                        0 <= k < j + 1 && 1 <= #[trigger] ids@[k] <= ps.len() implies holds_item(
                        out@,
                        ps[ids@[k] as int - 1],
                    ) by {
                        if k < j {
                            assert(holds_item(out0, ps[ids@[k] as int - 1]));
                            let jj = choose|jj: int|
                                0 <= jj < out0.len() && *(#[trigger] out0[jj]) == ps[ids@[k] as int
                                    - 1];
                            assert(*(out@[jj]) == ps[ids@[k] as int - 1]);
                        } else {
                            assert(*(out@[out@.len() - 1]) == ps[ids@[k] as int - 1]);
                        }
                    }
                }
            } else {
                proof {
                    assert forall|k: int|
                        0 <= k < j + 1 && 1 <= #[trigger] ids@[k] <= ps.len() implies holds_item(
                        out@,
                        ps[ids@[k] as int - 1],
                    ) by {
                        if k < j {
                            assert(holds_item(out0, ps[ids@[k] as int - 1]));
                        }
                    }
                }
            }
            j = j + 1;
        }
        proof {
            if (limit as nat) >= nbrs.len() {
                assert(ids@.to_set() == nbrs);
                assert forall|x: usize|
                    #[trigger] nbrs.contains(x) && 1 <= x <= ps.len() implies holds_item(
                    out@,
                    ps[x as int - 1],
                ) by {
                    assert(ids@.to_set().contains(x));
                    assert(ids@.contains(x));
                    let k = choose|k: int| 0 <= k < ids@.len() && ids@[k] == x;
                    assert(1 <= ids@[k] <= ps.len());
                    assert(holds_item(out@, ps[ids@[k] as int - 1]));
                }
            }
        }
        out
    }

    /// Whether an item holds every query token does not depend on the order
    /// or multiplicity of the tokens, only on which tokens occur.
    pub proof fn lemma_matches_order_independent(
        p: Product,
        t1: Seq<Seq<char>>,
        t2: Seq<Seq<char>>,
    )
        requires
            t1.to_set() == t2.to_set(),
            t1.len() > 0,
            t2.len() > 0,
        ensures
            product_matches(p, t1) == product_matches(p, t2),
    {
        assert forall|t: Seq<char>| #[trigger] t1.contains(t) implies t2.contains(t) by {
            assert(t1.to_set().contains(t));
            assert(t2.to_set().contains(t));
        }
        assert forall|t: Seq<char>| #[trigger] t2.contains(t) implies t1.contains(t) by {
            assert(t2.to_set().contains(t));
            assert(t1.to_set().contains(t));
        }
    }

    /// Forwards the relation to the graph; ids need not name stored items.
    pub fn add_recommendation_edge(&mut self, a: usize, b: usize)
        requires
            old(self).wf(),
        ensures
            final(self).wf(),
            final(self).graph_map() == edge_added(old(self).graph_map(), a, b),
            final(self).items() == old(self).items(),
            final(self).token_map() == old(self).token_map(),
            final(self).name_map() == old(self).name_map(),
    {
        self.rec_graph.add_edge(a, b);
    }
}

} // verus!
