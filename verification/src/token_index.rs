//! The inverted token index: token → set of item ids, with AND-intersection
//! queries.
//!
//! The index keeps its postings in a hash table of the `hashbrown` crate. The
//! table is held behind an opaque struct because its allocator type parameter
//! cannot be declared to the verifier; its contents are named by
//! [`token_entries`] and reached only through the trusted wrappers below. All
//! logic around the table is verified against those contracts.

use vstd::prelude::*;
use crate::product::Product;
use crate::product::product_tokens;
use crate::tokenizer::tokenize;
use crate::tokenizer::views_of;

verus! {

/// The token → id-set table of the inverted index.
#[verifier::external_body]
pub struct TokenMap {
    map: hashbrown::HashMap<String, std::collections::HashSet<usize>>,
}

/// What the token table holds: for each token with an entry, the set of ids
/// recorded under it.
pub uninterp spec fn token_entries(m: TokenMap) -> Map<Seq<char>, Set<usize>>;

/// Relies on `hashbrown::HashMap::new`: a new table holds no entry.
#[verifier::external_body]
fn token_map_new() -> (r: TokenMap)
    ensures
        token_entries(r).dom() == Set::<Seq<char>>::empty(),
{
    TokenMap { map: hashbrown::HashMap::new() }
}

/// Relies on `hashbrown::HashMap::entry` with `Entry::or_default`, and on
/// std's `HashSet::insert`: adds `id` to the set recorded under `t`, creating
/// the entry if absent, and touches no other entry.
#[verifier::external_body]
fn token_map_add(m: &mut TokenMap, t: &String, id: usize)
    ensures
        token_entries(*final(m)) == token_entries(*old(m)).insert(
            t@,
            (if token_entries(*old(m)).contains_key(t@) {
                token_entries(*old(m))[t@]
            } else {
                Set::<usize>::empty()
            }).insert(id),
        ),
{
    m.map.entry(t.clone()).or_default().insert(id);
}

/// Relies on `hashbrown::HashMap::get` and std's `HashSet` iteration: hands
/// the ids recorded under `t` out as a vector, in no promised order.
#[verifier::external_body]
fn token_map_get(m: &TokenMap, t: &String) -> (r: Option<Vec<usize>>)
    ensures
        r is Some <==> token_entries(*m).contains_key(t@),
        (r matches Some(v) ==> v@.to_set() == token_entries(*m)[t@] && v@.no_duplicates()),
{
    m.map.get(t).map(|s| s.iter().copied().collect())
}

/// The id set recorded under token `t`: empty where `t` has no entry.
pub open spec fn ids_of(m: Map<Seq<char>, Set<usize>>, t: Seq<char>) -> Set<usize> {
    if m.contains_key(t) {
        m[t]
    } else {
        Set::empty()
    }
}

/// The ids recorded under every token of `toks`: the AND of the token
/// entries. An empty token sequence yields the empty set.
pub open spec fn and_ids(m: Map<Seq<char>, Set<usize>>, toks: Seq<Seq<char>>) -> Set<usize>
    decreases toks.len(),
{
    if toks.len() == 0 {
        Set::empty()
    } else if toks.len() == 1 {
        ids_of(m, toks[0])
    } else {
        and_ids(m, toks.drop_last()).intersect(ids_of(m, toks.last()))
    }
}

/// A strictly ascending sequence of ids.
pub open spec fn strictly_ascending(s: Seq<usize>) -> bool {
    forall|i: int, j: int| 0 <= i < j < s.len() ==> s[i] < s[j]
}

/// The AND result only shrinks as tokens are added: it is contained in the
/// result for any non-empty prefix of the token sequence.
proof fn lemma_and_ids_prefix(m: Map<Seq<char>, Set<usize>>, toks: Seq<Seq<char>>, i: int)
    requires
        1 <= i <= toks.len(),
    ensures
        and_ids(m, toks).subset_of(and_ids(m, toks.take(i))),
    decreases toks.len(),
{
    if i == toks.len() {
        assert(toks.take(i) =~= toks);
    } else {
        lemma_and_ids_prefix(m, toks.drop_last(), i);
        assert(toks.drop_last().take(i) =~= toks.take(i));
    }
}

/// The AND result is contained in the id set of each of its tokens.
proof fn lemma_and_ids_each(m: Map<Seq<char>, Set<usize>>, toks: Seq<Seq<char>>, i: int)
    requires
        0 <= i < toks.len(),
    ensures
        and_ids(m, toks).subset_of(ids_of(m, toks[i])),
    decreases toks.len(),
{
    if toks.len() == 1 {
    } else if i == toks.len() - 1 {
    } else {
        lemma_and_ids_each(m, toks.drop_last(), i);
    }
}

/// A strictly ascending sequence holds no duplicates.
proof fn lemma_ascending_no_duplicates(s: Seq<usize>)
    requires
        strictly_ascending(s),
    ensures
        s.no_duplicates(),
{
    assert forall|i: int, j: int|
        0 <= i < s.len() && 0 <= j < s.len() && i != j implies s[i] != s[j] by {
        if i < j {
            assert(s[i] < s[j]);
        } else {
            assert(s[j] < s[i]);
        }
    }
}

/// An element kept by a filter stands in the source sequence.
proof fn lemma_filter_in_source(s: Seq<usize>, pred: spec_fn(usize) -> bool, x: usize)
    requires
        s.filter(pred).contains(x),
    ensures
        s.contains(x),
    decreases s.len(),
{
    reveal(Seq::filter);
    if s.len() > 0 {
        let f = s.filter(pred);
        let fd = s.drop_last().filter(pred);
        if x == s.last() {
            assert(s[s.len() - 1] == x);
        } else {
            let k = choose|k: int| 0 <= k < f.len() && f[k] == x;
            if pred(s.last()) {
                assert(k < f.len() - 1);
                assert(fd[k] == x);
            } else {
                assert(fd[k] == x);
            }
            lemma_filter_in_source(s.drop_last(), pred, x);
            let j = choose|j: int| 0 <= j < s.drop_last().len() && s.drop_last()[j] == x;
            assert(s[j] == x);
        }
    }
}

/// A filtered subsequence of a strictly ascending sequence is strictly
/// ascending.
proof fn lemma_filter_ascending(s: Seq<usize>, pred: spec_fn(usize) -> bool)
    requires
        strictly_ascending(s),
    ensures
        strictly_ascending(s.filter(pred)),
    decreases s.len(),
{
    reveal(Seq::filter);
    if s.len() > 0 {
        assert(strictly_ascending(s.drop_last()));
        lemma_filter_ascending(s.drop_last(), pred);
        let f = s.filter(pred);
        let fd = s.drop_last().filter(pred);
        if pred(s.last()) {
            assert(f == fd.push(s.last()));
            assert forall|i: int, j: int| 0 <= i < j < f.len() implies f[i] < f[j] by {
                if j < f.len() - 1 {
                    assert(f[i] == fd[i] && f[j] == fd[j]);
                } else {
                    assert(f[j] == s.last());
                    assert(fd.contains(fd[i])) by {
                        assert(fd[i] == f[i]);
                    }
                    lemma_filter_in_source(s.drop_last(), pred, fd[i]);
                    let k = choose|k: int|
                        0 <= k < s.drop_last().len() && s.drop_last()[k] == fd[i];
                    assert(s[k] == fd[i] && k < s.len() - 1);
                    assert(s[k] < s[s.len() - 1]);
                }
            }
        }
    }
}

/// Whether `v` holds `x`.
fn vec_contains(v: &Vec<usize>, x: usize) -> (r: bool)
    ensures
        r == v@.contains(x),
{
    let mut i: usize = 0;
    while i < v.len()
        invariant
            i <= v.len(),
            forall|k: int| 0 <= k < i ==> v@[k] != x,
        decreases v.len() - i,
    {
        if v[i] == x {
            return true;
        }
        i = i + 1;
    }
    false
}

/// Inserts `x` into an ascending vector, keeping it ascending.
fn insert_ascending(r: &mut Vec<usize>, x: usize)
    requires
        forall|i: int, j: int| 0 <= i <= j < old(r)@.len() ==> old(r)@[i] <= old(r)@[j],
    ensures
        forall|i: int, j: int| 0 <= i <= j < final(r)@.len() ==> final(r)@[i] <= final(r)@[j],
        final(r)@.to_multiset() == old(r)@.to_multiset().insert(x),
{
    let mut pos: usize = 0;
    while pos < r.len() && r[pos as usize] < x
        invariant
            pos <= r@.len(),
            forall|k: int| 0 <= k < pos ==> r@[k] < x,
            *r == *old(r),
        decreases r@.len() - pos,
    {
        pos = pos + 1;
    }
    let ghost prev = r@;
    r.insert(pos, x);
    proof {
        broadcast use vstd::seq_lib::group_to_multiset_ensures;
        broadcast use vstd::multiset::group_multiset_axioms;

        prev.insert_ensures(pos as int, x);
        assert forall|i: int, j: int| 0 <= i <= j < r@.len() implies r@[i] <= r@[j] by {
            assert(forall|k: int| 0 <= k < pos ==> r@[k] == prev[k]);
            assert(forall|k: int| pos <= k < prev.len() ==> r@[k + 1] == prev[k]);
            assert(r@[pos as int] == x);
            assert(forall|k: int| pos <= k < prev.len() ==> x <= prev[k]);
            if i < pos && j > pos {
                assert(r@[i] == prev[i] && r@[j] == prev[j - 1]);
            }
        }
        let sub0 = prev.subrange(0, pos as int);
        let sub1 = prev.subrange(pos as int, prev.len() as int);
        assert(r@ == sub0.push(x) + sub1);
        vstd::seq_lib::lemma_multiset_commutative(sub0.push(x), sub1);
        vstd::seq_lib::lemma_multiset_commutative(sub0, sub1);
        assert(sub0 + sub1 =~= prev);
        assert(sub0.push(x).to_multiset() =~= sub0.to_multiset().insert(x));
        assert(r@.to_multiset() =~= prev.to_multiset().insert(x));
    }
}

/// Sorts the ids ascending. The result holds the same ids; a duplicate-free
/// input comes out strictly ascending.
fn sort_ascending(v: &Vec<usize>) -> (r: Vec<usize>)
    ensures
        r@.to_multiset() == v@.to_multiset(),
        r@.to_set() == v@.to_set(),
        forall|i: int, j: int| 0 <= i <= j < r@.len() ==> r@[i] <= r@[j],
        v@.no_duplicates() ==> strictly_ascending(r@),
{
    let mut out: Vec<usize> = Vec::new();
    let mut i: usize = 0;
    proof {
        assert(out@ =~= v@.take(0));
    }
    while i < v.len()
        invariant
            i <= v@.len(),
            out@.to_multiset() == v@.take(i as int).to_multiset(),
            forall|p: int, q: int| 0 <= p <= q < out@.len() ==> out@[p] <= out@[q],
        decreases v.len() - i,
    {
        let x = v[i];
        insert_ascending(&mut out, x);
        proof {
            broadcast use vstd::seq_lib::group_to_multiset_ensures;

            let t = v@.take(i + 1);
            assert(t.drop_last() =~= v@.take(i as int));
            assert(t =~= t.drop_last().push(t.last()));
            assert(t.last() == x);
        }
        i = i + 1;
    }
    proof {
        assert(v@.take(v@.len() as int) =~= v@);
        broadcast use vstd::seq_lib::group_to_multiset_ensures;

        assert forall|x: usize| out@.to_set().contains(x) <==> v@.to_set().contains(x) by {
            assert(out@.contains(x) <==> out@.to_multiset().contains(x));
            assert(v@.contains(x) <==> v@.to_multiset().contains(x));
        }
        assert(out@.to_set() =~= v@.to_set());
        if v@.no_duplicates() {
            v@.lemma_multiset_has_no_duplicates();
            out@.lemma_multiset_has_no_duplicates_conv();
            assert forall|p: int, q: int| 0 <= p < q < out@.len() implies out@[p] < out@[q] by {
                assert(out@[p] <= out@[q]);
            }
        }
    }
    out
}

/// Keeps the elements of `cur` that `w` also holds, in order.
fn intersect_with(cur: &Vec<usize>, w: &Vec<usize>) -> (r: Vec<usize>)
    ensures
        r@.to_set() == cur@.to_set().intersect(w@.to_set()),
        strictly_ascending(cur@) ==> strictly_ascending(r@),
{
    let mut out: Vec<usize> = Vec::new();
    let mut i: usize = 0;
    let ghost pred = |x: usize| w@.contains(x);
    proof {
        reveal(Seq::filter);
        assert(cur@.take(0).filter(pred) =~= Seq::<usize>::empty());
    }
    while i < cur.len()
        invariant
            i <= cur@.len(),
            pred == (|x: usize| w@.contains(x)),
            out@ == cur@.take(i as int).filter(pred),
        decreases cur.len() - i,
    {
        let x = cur[i];
        let keep = vec_contains(w, x);
        if keep {
            out.push(x);
        }
        proof {
            reveal(Seq::filter);
            let t = cur@.take(i + 1);
            assert(t.drop_last() =~= cur@.take(i as int));
            assert(t.last() == cur@[i as int]);
        }
        i = i + 1;
    }
    proof {
        broadcast use vstd::seq_lib::group_filter_ensures;

        assert(cur@.take(cur@.len() as int) =~= cur@);
        assert forall|x: usize|
            out@.to_set().contains(x) implies cur@.to_set().contains(x) && w@.to_set().contains(
            x,
        ) by {
            let k = choose|k: int| 0 <= k < out@.len() && out@[k] == x;
            assert(pred(out@[k]));
            lemma_filter_in_source(cur@, pred, x);
        }
        assert forall|x: usize|
            cur@.to_set().contains(x) && w@.to_set().contains(x) implies out@.to_set().contains(
            x,
        ) by {
            let k = choose|k: int| 0 <= k < cur@.len() && cur@[k] == x;
            assert(pred(cur@[k]));
            assert(out@.contains(x));
        }
        assert(out@.to_set() =~= cur@.to_set().intersect(w@.to_set()));
        if strictly_ascending(cur@) {
            lemma_filter_ascending(cur@, pred);
        }
    }
    out
}

/// The inverted token index: maps each token to the set of ids of the items
/// whose indexed fields produced it.
pub struct HashIndex {
    index: TokenMap,
}

impl HashIndex {
    /// The entries of the index: token → recorded id set.
    pub closed spec fn entries(self) -> Map<Seq<char>, Set<usize>> {
        token_entries(self.index)
    }

    /// A new, empty index.
    pub fn new() -> (r: Self)
        ensures
            r.entries() == Map::<Seq<char>, Set<usize>>::empty(),
    {
        let r = HashIndex { index: token_map_new() };
        proof {
            assert(r.entries() =~= Map::<Seq<char>, Set<usize>>::empty());
        }
        r
    }

    /// Records the item's id under every token of its name, brand and
    /// category; other entries are untouched.
    pub fn index_product(&mut self, p: &Product)
        ensures
            forall|t: Seq<char>|
                #[trigger] final(self).entries().contains_key(t) <==> (old(
                    self,
                ).entries().contains_key(t) || product_tokens(*p).contains(t)),
            forall|t: Seq<char>|
                product_tokens(*p).contains(t) ==> #[trigger] final(self).entries()[t] == ids_of(
                    old(self).entries(),
                    t,
                ).insert(p.id),
            forall|t: Seq<char>|
                old(self).entries().contains_key(t) && !product_tokens(*p).contains(t)
                    ==> #[trigger] final(self).entries()[t] == old(self).entries()[t],
    {
        let ghost m0 = self.entries();
        let mut toks = tokenize(p.name.as_str());
        let mut more = tokenize(p.brand.as_str());
        toks.append(&mut more);
        let mut more = tokenize(p.category.as_str());
        toks.append(&mut more);
        proof {
            assert(views_of(toks@) =~= product_tokens(*p));
        }
        let id = p.id;
        let mut i: usize = 0;
        while i < toks.len()
            invariant
                i <= toks@.len(),
                views_of(toks@) == product_tokens(*p),
                id == p.id,
                forall|t: Seq<char>|
                    #[trigger] self.entries().contains_key(t) <==> (m0.contains_key(t) || views_of(
                        toks@,
                    ).take(i as int).contains(t)),
                forall|t: Seq<char>|
                    views_of(toks@).take(i as int).contains(t) ==> #[trigger] self.entries()[t]
                        == ids_of(m0, t).insert(id),
                forall|t: Seq<char>|
                    m0.contains_key(t) && !views_of(toks@).take(i as int).contains(t)
                        ==> #[trigger] self.entries()[t] == m0[t],
            decreases toks.len() - i,
        {
            let ghost before = self.entries();
            let ghost tv = toks@[i as int]@;
            token_map_add(&mut self.index, &toks[i], id);
            proof {
                let pre = views_of(toks@).take(i as int);
                let post = views_of(toks@).take(i + 1);
                assert(post.drop_last() =~= pre);
                assert(post.last() == tv);
                assert forall|t: Seq<char>| post.contains(t) implies (pre.contains(t) || t
                    == tv) by {
                    let k = choose|k: int| 0 <= k < post.len() && post[k] == t;
                    if k < post.len() - 1 {
                        assert(pre[k] == t);
                    }
                }
                assert forall|t: Seq<char>| pre.contains(t) implies post.contains(t) by {
                    let k = choose|k: int| 0 <= k < pre.len() && pre[k] == t;
                    assert(post[k] == t);
                }
                assert(post.contains(tv)) by {
                    assert(post[post.len() - 1] == tv);
                }
                if pre.contains(tv) {
                    assert(before[tv] == ids_of(m0, tv).insert(id));
                    assert(ids_of(m0, tv).insert(id).insert(id) =~= ids_of(m0, tv).insert(id));
                } else if m0.contains_key(tv) {
                    assert(before[tv] == m0[tv]);
                }
            }
            i = i + 1;
        }
        proof {
            assert(views_of(toks@).take(toks@.len() as int) =~= views_of(toks@));
        }
    }

    /// The ids of the items holding every one of the query tokens: the AND of
    /// the tokens' entries, returned in ascending id order. A token without
    /// an entry, or an empty token sequence, yields an empty result.
    pub fn search_tokens_and(&self, tokens: &[String]) -> (r: Vec<usize>)
        ensures
            r@.to_set() == and_ids(self.entries(), views_of(tokens@)),
            strictly_ascending(r@),
            r@.no_duplicates(),
    {
        let ghost m = self.entries();
        let ghost tvs = views_of(tokens@);
        if tokens.len() == 0 {
            let r: Vec<usize> = Vec::new();
            proof {
                assert(r@.to_set() =~= and_ids(m, tvs));
            }
            return r;
        }
        let first = token_map_get(&self.index, &tokens[0]);
        match first {
            None => {
                let r: Vec<usize> = Vec::new();
                proof {
                    lemma_and_ids_each(m, tvs, 0);
                    assert(ids_of(m, tvs[0]) =~= Set::<usize>::empty());
                    assert(r@.to_set() =~= and_ids(m, tvs));
                }
                r
            },
            Some(v) => {
                let mut cur = sort_ascending(&v);
                proof {
                    assert(tvs.take(1) =~= seq![tvs[0]]);
                    assert(and_ids(m, tvs.take(1)) == ids_of(m, tvs[0]));
                }
                let mut i: usize = 1;
                while i < tokens.len()
                    invariant
                        1 <= i <= tvs.len(),
                        m == self.entries(),
                        tvs == views_of(tokens@),
                        tvs.len() == tokens@.len(),
                        cur@.to_set() == and_ids(m, tvs.take(i as int)),
                        strictly_ascending(cur@),
                    decreases tokens@.len() - i,
                {
                    let found = token_map_get(&self.index, &tokens[i]);
                    proof {
                        let t = tvs.take(i + 1);
                        assert(t.drop_last() =~= tvs.take(i as int));
                        assert(t.last() == tvs[i as int]);
                        assert(t.len() >= 2);
                    }
                    match found {
                        None => {
                            let r: Vec<usize> = Vec::new();
                            proof {
                                lemma_and_ids_each(m, tvs, i as int);
                                assert(ids_of(m, tvs[i as int]) =~= Set::<usize>::empty());
                                assert(r@.to_set() =~= and_ids(m, tvs));
                            }
                            return r;
                        },
                        Some(w) => {
                            cur = intersect_with(&cur, &w);
                            proof {
                                assert(cur@.to_set() =~= and_ids(m, tvs.take(i + 1)));
                            }
                        },
                    }
                    i = i + 1;
                    if cur.len() == 0 {
                        proof {
                            lemma_and_ids_prefix(m, tvs, i as int);
                            assert(cur@.to_set() =~= Set::<usize>::empty());
                            assert(and_ids(m, tvs).subset_of(cur@.to_set()));
                            assert(cur@.to_set() =~= and_ids(m, tvs));
                        }
                        return cur;
                    }
                }
                proof {
                    assert(tvs.take(tvs.len() as int) =~= tvs);
                    lemma_ascending_no_duplicates(cur@);
                }
                cur
            },
        }
    }
}

} // verus!
