//! The ordered name index: normalized name → ids, kept sorted by key so that
//! prefix range scans are contiguous.
//!
//! Keys are held as character vectors in strictly ascending lexicographic
//! order; the ids under one key keep their insertion order.

use vstd::prelude::*;
use crate::tokenizer::chars_of;
use crate::tokenizer::lower_of;
use crate::tokenizer::lowercase;

verus! {

/// Strict lexicographic order on character sequences, by code point.
pub open spec fn lex_lt(a: Seq<char>, b: Seq<char>) -> bool
    decreases a.len(),
{
    if b.len() == 0 {
        false
    } else if a.len() == 0 {
        true
    } else if a[0] != b[0] {
        (a[0] as u32) < (b[0] as u32)
    } else {
        lex_lt(a.drop_first(), b.drop_first())
    }
}

/// Lexicographic order, allowing equality.
pub open spec fn lex_le(a: Seq<char>, b: Seq<char>) -> bool {
    lex_lt(a, b) || a == b
}

/// No sequence is lexicographically below itself.
proof fn lemma_lex_irrefl(a: Seq<char>)
    ensures
        !lex_lt(a, a),
    decreases a.len(),
{
    if a.len() > 0 {
        lemma_lex_irrefl(a.drop_first());
    }
}

/// Distinct characters have distinct code points.
proof fn lemma_char_inj(c: char, d: char)
    requires
        c as u32 == d as u32,
    ensures
        c == d,
{
}

/// Two sequences neither of which is below the other are equal.
proof fn lemma_lex_trichotomy(a: Seq<char>, b: Seq<char>)
    requires
        !lex_lt(a, b),
        !lex_lt(b, a),
    ensures
        a == b,
    decreases a.len(),
{
    if b.len() == 0 {
        assert(a.len() == 0);
        assert(a =~= b);
    } else if a.len() == 0 {
        assert(lex_lt(a, b));
    } else {
        if a[0] != b[0] {
            assert(!((a[0] as u32) < (b[0] as u32)));
            assert(!((b[0] as u32) < (a[0] as u32)));
            lemma_char_inj(a[0], b[0]);
        }
        assert(a[0] == b[0]);
        lemma_lex_trichotomy(a.drop_first(), b.drop_first());
        assert forall|i: int| 0 <= i < a.len() implies a[i] == b[i] by {
            if i > 0 {
                assert(a.drop_first()[i - 1] == b.drop_first()[i - 1]);
            }
        }
        assert(a =~= b);
    }
}

/// Lexicographic order is transitive.
proof fn lemma_lex_trans(a: Seq<char>, b: Seq<char>, c: Seq<char>)
    requires
        lex_lt(a, b),
        lex_lt(b, c),
    ensures
        lex_lt(a, c),
    decreases a.len(),
{
    if a.len() == 0 {
        assert(c.len() > 0);
    } else {
        assert(b.len() > 0);
        assert(c.len() > 0);
        if a[0] == b[0] && b[0] == c[0] {
            lemma_lex_trans(a.drop_first(), b.drop_first(), c.drop_first());
        }
    }
}

/// Dropping an equal prefix of both sequences does not change their order.
proof fn lemma_lex_skip(a: Seq<char>, b: Seq<char>, i: int)
    requires
        0 <= i <= a.len(),
        i <= b.len(),
        forall|k: int| 0 <= k < i ==> a[k] == b[k],
    ensures
        lex_lt(a, b) == lex_lt(a.skip(i), b.skip(i)),
    decreases i,
{
    if i > 0 {
        assert(a[0] == b[0]);
        assert(a.len() > 0 && b.len() > 0);
        assert(forall|k: int| 0 <= k < i - 1 ==> a.drop_first()[k] == b.drop_first()[k]);
        lemma_lex_skip(a.drop_first(), b.drop_first(), i - 1);
        assert(a.drop_first().skip(i - 1) =~= a.skip(i));
        assert(b.drop_first().skip(i - 1) =~= b.skip(i));
    } else {
        assert(a.skip(0) =~= a);
        assert(b.skip(0) =~= b);
    }
}

/// Whether the two key vectors hold the same characters.
pub(crate) fn key_eq(a: &Vec<char>, b: &Vec<char>) -> (r: bool)
    ensures
        r == (a@ == b@),
{
    if a.len() != b.len() {
        return false;
    }
    let mut i: usize = 0;
    while i < a.len()
        invariant
            a@.len() == b@.len(),
            i <= a@.len(),
            forall|k: int| 0 <= k < i ==> a@[k] == b@[k],
        decreases a.len() - i,
    {
        if a[i] != b[i] {
            return false;
        }
        i = i + 1;
    }
    proof {
        assert(a@ =~= b@);
    }
    true
}

/// Whether `a` is lexicographically strictly below `b`.
fn key_lt(a: &Vec<char>, b: &Vec<char>) -> (r: bool)
    ensures
        r == lex_lt(a@, b@),
{
    let mut i: usize = 0;
    while i < a.len() && i < b.len()
        invariant
            i <= a@.len(),
            i <= b@.len(),
            forall|k: int| 0 <= k < i ==> a@[k] == b@[k],
        decreases a.len() - i,
    {
        let ca = a[i];
        let cb = b[i];
        if ca != cb {
            proof {
                lemma_lex_skip(a@, b@, i as int);
                assert(a@.skip(i as int)[0] == a@[i as int]);
                assert(b@.skip(i as int)[0] == b@[i as int]);
            }
            return (ca as u32) < (cb as u32);
        }
        i = i + 1;
    }
    proof {
        lemma_lex_skip(a@, b@, i as int);
        if a.len() < b.len() {
            assert(a@.skip(i as int).len() == 0);
            assert(b@.skip(i as int).len() > 0);
        } else {
            assert(b@.skip(i as int).len() == 0);
        }
    }
    a.len() < b.len()
}

/// One entry of the ordered index: a normalized name key and the ids recorded
/// under it, in insertion order.
pub struct NameEntry {
    pub key: Vec<char>,
    pub ids: Vec<usize>,
}

/// The entries as (key, ids) pairs of sequences.
pub open spec fn entry_view(e: NameEntry) -> (Seq<char>, Seq<usize>) {
    (e.key@, e.ids@)
}

/// Whether the keys of `m` are strictly ascending.
pub open spec fn sorted_keys(m: Seq<(Seq<char>, Seq<usize>)>) -> bool {
    forall|i: int, j: int| 0 <= i < j < m.len() ==> lex_lt(#[trigger] m[i].0, #[trigger] m[j].0)
}

/// Whether some entry of `m` has key `k`.
pub open spec fn has_key(m: Seq<(Seq<char>, Seq<usize>)>, k: Seq<char>) -> bool
    decreases m.len(),
{
    if m.len() == 0 {
        false
    } else {
        m[0].0 == k || has_key(m.drop_first(), k)
    }
}

/// The ids recorded under the first entry with key `k`, empty where the key
/// is absent.
pub open spec fn key_seq(m: Seq<(Seq<char>, Seq<usize>)>, k: Seq<char>) -> Seq<usize>
    decreases m.len(),
{
    if m.len() == 0 {
        Seq::empty()
    } else if m[0].0 == k {
        m[0].1
    } else {
        key_seq(m.drop_first(), k)
    }
}

/// A key is present exactly when some entry carries it.
pub proof fn lemma_has_key_exists(m: Seq<(Seq<char>, Seq<usize>)>, k: Seq<char>)
    ensures
        has_key(m, k) <==> exists|i: int| 0 <= i < m.len() && (#[trigger] m[i].0) == k,
    decreases m.len(),
{
    if m.len() > 0 {
        lemma_has_key_exists(m.drop_first(), k);
        if m[0].0 == k {
            let z: int = 0;
            assert(0 <= z < m.len() && (m[z].0) == k);
        }
        if has_key(m.drop_first(), k) {
            let i = choose|i: int|
                0 <= i < m.drop_first().len() && (#[trigger] m.drop_first()[i].0) == k;
            assert((m[i + 1].0) == k);
        }
        if exists|i: int| 0 <= i < m.len() && (#[trigger] m[i].0) == k {
            let i = choose|i: int| 0 <= i < m.len() && (#[trigger] m[i].0) == k;
            if i > 0 {
                assert((m.drop_first()[i - 1].0) == k);
            }
        }
    }
}

/// Where the key is absent, its id sequence is empty.
pub proof fn lemma_key_seq_absent(m: Seq<(Seq<char>, Seq<usize>)>, k: Seq<char>)
    requires
        !has_key(m, k),
    ensures
        key_seq(m, k) == Seq::<usize>::empty(),
    decreases m.len(),
{
    if m.len() > 0 {
        lemma_key_seq_absent(m.drop_first(), k);
    }
}

/// With strictly ascending keys, the ids under the key of entry `ei` are that
/// entry's ids.
pub proof fn lemma_key_seq_at(m: Seq<(Seq<char>, Seq<usize>)>, ei: int)
    requires
        sorted_keys(m),
        0 <= ei < m.len(),
    ensures
        has_key(m, m[ei].0),
        key_seq(m, m[ei].0) == m[ei].1,
    decreases m.len(),
{
    let k = m[ei].0;
    if ei == 0 {
    } else {
        assert(lex_lt(m[0].0, m[ei].0));
        lemma_lex_irrefl(k);
        assert(m[0].0 != k);
        assert(sorted_keys(m.drop_first())) by {
            assert forall|a: int, b: int| 0 <= a < b < m.drop_first().len() implies lex_lt(
                #[trigger] m.drop_first()[a].0,
                #[trigger] m.drop_first()[b].0,
            ) by {
                assert(m.drop_first()[a] == m[a + 1]);
                assert(m.drop_first()[b] == m[b + 1]);
            }
        }
        assert(m.drop_first()[ei - 1] == m[ei]);
        lemma_key_seq_at(m.drop_first(), ei - 1);
    }
}

/// The ids of all entries whose key starts with `p`, in entry order.
pub open spec fn matching_ids(m: Seq<(Seq<char>, Seq<usize>)>, p: Seq<char>) -> Seq<usize>
    decreases m.len(),
{
    if m.len() == 0 {
        Seq::empty()
    } else {
        (if p.is_prefix_of(m[0].0) {
            m[0].1
        } else {
            Seq::empty()
        }) + matching_ids(m.drop_first(), p)
    }
}

/// `matching_ids` distributes over concatenation of the entry sequence.
proof fn lemma_matching_append(
    a: Seq<(Seq<char>, Seq<usize>)>,
    b: Seq<(Seq<char>, Seq<usize>)>,
    p: Seq<char>,
)
    ensures
        matching_ids(a + b, p) == matching_ids(a, p) + matching_ids(b, p),
    decreases a.len(),
{
    if a.len() == 0 {
        assert(a + b =~= b);
        assert(matching_ids(a, p) + matching_ids(b, p) =~= matching_ids(b, p));
    } else {
        assert((a + b).len() > 0);
        assert((a + b)[0] == a[0]);
        assert((a + b).drop_first() =~= a.drop_first() + b);
        lemma_matching_append(a.drop_first(), b, p);
        assert(matching_ids(a + b, p) =~= matching_ids(a, p) + matching_ids(b, p));
    }
}

/// The matching ids split at entry `i` into the part before, the entry's own
/// contribution, and the part after.
proof fn lemma_matching_split(m: Seq<(Seq<char>, Seq<usize>)>, p: Seq<char>, i: int)
    requires
        0 <= i < m.len(),
    ensures
        matching_ids(m.take(i + 1), p) == matching_ids(m.take(i), p) + (if p.is_prefix_of(
            m[i].0,
        ) {
            m[i].1
        } else {
            Seq::<usize>::empty()
        }),
        matching_ids(m, p) == matching_ids(m.take(i + 1), p) + matching_ids(m.skip(i + 1), p),
{
    let a = m.take(i);
    let b = seq![m[i]];
    let c = m.skip(i + 1);
    let head: Seq<usize> = if p.is_prefix_of(m[i].0) {
        m[i].1
    } else {
        Seq::<usize>::empty()
    };
    assert(m.take(i + 1) =~= a + b);
    assert(m =~= m.take(i + 1) + c);
    lemma_matching_append(a, b, p);
    lemma_matching_append(m.take(i + 1), c, p);
    assert(matching_ids(b, p) =~= head) by {
        assert(b.len() == 1);
        assert(b[0] == m[i]);
        assert(b.drop_first() =~= Seq::<(Seq<char>, Seq<usize>)>::empty());
        assert(matching_ids(b.drop_first(), p) =~= Seq::<usize>::empty());
    }
    assert(matching_ids(m.take(i + 1), p) =~= matching_ids(a, p) + head);
}

/// Every id under a key starting with `p` appears in the matching ids.
pub proof fn lemma_matching_has_entry(
    m: Seq<(Seq<char>, Seq<usize>)>,
    p: Seq<char>,
    ei: int,
    id: usize,
)
    requires
        0 <= ei < m.len(),
        p.is_prefix_of(m[ei].0),
        m[ei].1.contains(id),
    ensures
        matching_ids(m, p).contains(id),
    decreases m.len(),
{
    if ei == 0 {
        let j = choose|j: int| 0 <= j < m[0].1.len() && m[0].1[j] == id;
        assert(matching_ids(m, p)[j] == id);
    } else {
        lemma_matching_has_entry(m.drop_first(), p, ei - 1, id);
        let rest = matching_ids(m.drop_first(), p);
        let j = choose|j: int| 0 <= j < rest.len() && rest[j] == id;
        let head: Seq<usize> = if p.is_prefix_of(m[0].0) {
            m[0].1
        } else {
            Seq::empty()
        };
        assert(matching_ids(m, p)[head.len() + j] == id);
    }
}

/// Some entry of `m` has key `k` starting with `p` and holds `id`.
pub open spec fn under_prefix_at(
    m: Seq<(Seq<char>, Seq<usize>)>,
    p: Seq<char>,
    k: Seq<char>,
    id: usize,
) -> bool {
    exists|ei: int|
        0 <= ei < m.len() && (#[trigger] m[ei].0) == k && p.is_prefix_of(k) && m[ei].1.contains(id)
}

/// `id` is recorded under some key starting with `p`.
pub open spec fn under_prefix(m: Seq<(Seq<char>, Seq<usize>)>, p: Seq<char>, id: usize) -> bool {
    exists|k: Seq<char>| #[trigger] under_prefix_at(m, p, k, id)
}

/// The keys holding the two ids, both starting with `p`, stand in
/// lexicographic order.
pub open spec fn ordered_under(
    m: Seq<(Seq<char>, Seq<usize>)>,
    p: Seq<char>,
    id1: usize,
    id2: usize,
) -> bool {
    exists|k1: Seq<char>, k2: Seq<char>|
        #[trigger] under_prefix_at(m, p, k1, id1) && #[trigger] under_prefix_at(m, p, k2, id2)
            && lex_le(k1, k2)
}

/// `id` is recorded under key `k` in an entry before `bound`, and `k` starts
/// with `p`.
pub open spec fn recorded_before(
    m: Seq<(Seq<char>, Seq<usize>)>,
    p: Seq<char>,
    bound: int,
    k: Seq<char>,
    id: usize,
) -> bool {
    exists|ei: int|
        0 <= ei < bound <= m.len() && (#[trigger] m[ei].0) == k && p.is_prefix_of(k)
            && m[ei].1.contains(id)
}

/// Whether `key` starts with the characters of `p`.
fn starts_with(key: &Vec<char>, p: &Vec<char>) -> (r: bool)
    ensures
        r == p@.is_prefix_of(key@),
{
    if p.len() > key.len() {
        return false;
    }
    let mut i: usize = 0;
    while i < p.len()
        invariant
            p@.len() <= key@.len(),
            i <= p@.len(),
            forall|j: int| 0 <= j < i ==> p@[j] == key@[j],
        decreases p.len() - i,
    {
        if p[i] != key[i] {
            return false;
        }
        i = i + 1;
    }
    proof {
        assert(p@ =~= key@.subrange(0, p@.len() as int));
    }
    true
}

/// With strictly ascending keys, no two entries share a key.
proof fn lemma_unique_key(m: Seq<(Seq<char>, Seq<usize>)>, a: int, b: int)
    requires
        sorted_keys(m),
        0 <= a < m.len(),
        0 <= b < m.len(),
        m[a].0 == m[b].0,
    ensures
        a == b,
{
    if a < b {
        assert(lex_lt(m[a].0, m[b].0));
        lemma_lex_irrefl(m[a].0);
    } else if b < a {
        assert(lex_lt(m[b].0, m[a].0));
        lemma_lex_irrefl(m[a].0);
    }
}

/// The first position whose key is not below `key`: all earlier keys are
/// strictly below it.
fn find_pos(entries: &Vec<NameEntry>, key: &Vec<char>) -> (i: usize)
    ensures
        i <= entries@.len(),
        forall|j: int| 0 <= j < i ==> lex_lt(#[trigger] entries@[j].key@, key@),
        i < entries@.len() ==> !lex_lt(entries@[i as int].key@, key@),
{
    let mut i: usize = 0;
    while i < entries.len()
        invariant
            i <= entries@.len(),
            forall|j: int| 0 <= j < i ==> lex_lt(#[trigger] entries@[j].key@, key@),
        decreases entries.len() - i,
    {
        let probe = &entries[i];
        if !key_lt(&probe.key, key) {
            return i;
        }
        i = i + 1;
    }
    i
}

/// The ordered name index.
pub struct NameBTree {
    entries: Vec<NameEntry>,
}

impl NameBTree {
    /// The entries as (key, ids) pairs, in storage order.
    pub closed spec fn model(self) -> Seq<(Seq<char>, Seq<usize>)> {
        self.entries@.map_values(|e: NameEntry| entry_view(e))
    }

    /// Well-formed: keys strictly ascending, hence unique.
    pub open spec fn wf(self) -> bool {
        sorted_keys(self.model())
    }

    /// A new, empty index.
    pub fn new() -> (r: Self)
        ensures
            r.wf(),
            r.model() == Seq::<(Seq<char>, Seq<usize>)>::empty(),
    {
        let r = NameBTree { entries: Vec::new() };
        proof {
            assert(r.model() =~= Seq::<(Seq<char>, Seq<usize>)>::empty());
        }
        r
    }

    /// Appends `id` under the normalized (lower-cased) name, creating the key
    /// at its sorted position if absent. Other keys are untouched.
    pub fn insert(&mut self, name: &str, id: usize)
        requires
            old(self).wf(),
        ensures
            final(self).wf(),
            has_key(final(self).model(), lower_of(name@)),
            key_seq(final(self).model(), lower_of(name@)) == key_seq(
                old(self).model(),
                lower_of(name@),
            ).push(id),
            forall|k2: Seq<char>|
                k2 != lower_of(name@) ==> #[trigger] key_seq(final(self).model(), k2) == key_seq(
                    old(self).model(),
                    k2,
                ),
            forall|k2: Seq<char>|
                #[trigger] has_key(final(self).model(), k2) <==> (has_key(old(self).model(), k2)
                    || k2 == lower_of(name@)),
    {
        let ghost m0 = self.model();
        let low = lowercase(name);
        let key = chars_of(low.as_str());
        let ghost k = key@;
        let i = find_pos(&self.entries, &key);
        proof {
            assert(forall|j: int| 0 <= j < i ==> lex_lt(#[trigger] m0[j].0, k));
        }
        let mut same = false;
        if i < self.entries.len() {
            let probe = &self.entries[i];
            same = key_eq(&probe.key, &key);
        }
        if same {
            let mut e = self.entries.remove(i);
            e.ids.push(id);
            let ghost eg = e;
            self.entries.insert(i, e);
            proof {
                let es0 = old(self).entries@;
                es0.remove_ensures(i as int);
                es0.remove(i as int).insert_ensures(i as int, eg);
                assert(self.entries@ =~= es0.update(i as int, eg));
                let m1 = self.model();
                assert(m1.len() == m0.len());
                assert forall|j: int| 0 <= j < m1.len() && j != i implies m1[j] == m0[j] by {
                    assert(self.entries@[j] == es0[j]);
                }
                assert(m1[i as int].0 == k);
                assert(m1[i as int].1 == m0[i as int].1.push(id));
                assert(sorted_keys(m1)) by {
                    assert(forall|a: int, b: int|
                        0 <= a < b < m1.len() ==> m1[a].0 == m0[a].0 && m1[b].0 == m0[b].0);
                }
                lemma_key_seq_at(m0, i as int);
                lemma_key_seq_at(m1, i as int);
                assert forall|k2: Seq<char>| k2 != k implies #[trigger] key_seq(m1, k2) == key_seq(
                    m0,
                    k2,
                ) by {
                    Self::lemma_key_seq_frame(m0, m1, i as int, k2);
                }
                assert forall|k2: Seq<char>| #[trigger]
                    has_key(m1, k2) <==> (has_key(m0, k2) || k2 == k) by {
                    if k2 != k {
                        Self::lemma_key_seq_frame(m0, m1, i as int, k2);
                    }
                }
            }
        } else {
            proof {
                if i < self.entries@.len() {
                    let probe = m0[i as int].0;
                    assert(!lex_lt(probe, k));
                    assert(probe != k);
                    if !lex_lt(k, probe) {
                        lemma_lex_trichotomy(k, probe);
                    }
                    assert(lex_lt(k, probe));
                }
                assert forall|j: int| 0 <= j < m0.len() && j >= i implies lex_lt(
                    k,
                    #[trigger] m0[j].0,
                ) by {
                    if j > i {
                        assert(lex_lt(m0[i as int].0, m0[j].0));
                        lemma_lex_trans(k, m0[i as int].0, m0[j].0);
                    }
                }
                assert forall|j: int| 0 <= j < m0.len() implies (#[trigger] m0[j].0) != k by {
                    if j < i {
                        lemma_lex_irrefl(m0[j].0);
                        if m0[j].0 == k {
                            assert(lex_lt(k, k));
                        }
                    } else {
                        lemma_lex_irrefl(k);
                        if m0[j].0 == k {
                            assert(lex_lt(k, k));
                        }
                    }
                }
                lemma_has_key_exists(m0, k);
                assert(!has_key(m0, k));
            }
            let mut ids: Vec<usize> = Vec::new();
            ids.push(id);
            let e = NameEntry { key, ids };
            let ghost eg = e;
            self.entries.insert(i, e);
            proof {
                let m1 = self.model();
                assert(self.entries@ == old(self).entries@.insert(i as int, eg));
                old(self).entries@.insert_ensures(i as int, eg);
                assert(m1.len() == m0.len() + 1);
                assert(forall|j: int| 0 <= j < i ==> #[trigger] m1[j] == m0[j]);
                assert(forall|j: int| i <= j < m0.len() ==> #[trigger] m1[j + 1] == m0[j]);
                assert(m1[i as int].0 == k);
                assert(m1[i as int].1 =~= Seq::<usize>::empty().push(id));
                assert forall|a: int, b: int| 0 <= a < b < m1.len() implies lex_lt(
                    #[trigger] m1[a].0,
                    #[trigger] m1[b].0,
                ) by {
                    if a < i && b < i {
                        assert(m1[a] == m0[a] && m1[b] == m0[b]);
                    } else if a < i && b == i {
                        assert(m1[a] == m0[a]);
                    } else if a < i && b > i {
                        assert(m1[a] == m0[a] && m1[b] == m0[b - 1]);
                        if b - 1 == a {
                            assert(lex_lt(m0[a].0, k) && lex_lt(k, m0[b - 1].0));
                        }
                    } else if a == i {
                        assert(m1[b] == m0[b - 1]);
                        assert(lex_lt(k, m0[b - 1].0));
                    } else {
                        assert(m1[a] == m0[a - 1] && m1[b] == m0[b - 1]);
                    }
                }
                lemma_key_seq_at(m1, i as int);
                lemma_has_key_exists(m0, k);
                assert(!has_key(m0, k));
                lemma_key_seq_absent(m0, k);
                assert(key_seq(m1, k) =~= key_seq(m0, k).push(id));
                assert forall|k2: Seq<char>| k2 != k implies #[trigger] key_seq(m1, k2) == key_seq(
                    m0,
                    k2,
                ) by {
                    Self::lemma_key_seq_insert_frame(m0, m1, i as int, k2);
                }
                assert forall|k2: Seq<char>| #[trigger]
                    has_key(m1, k2) <==> (has_key(m0, k2) || k2 == k) by {
                    if k2 != k {
                        Self::lemma_key_seq_insert_frame(m0, m1, i as int, k2);
                    }
                }
            }
        }
    }

    /// A record under a key stays a record under it when the entry bound
    /// widens.
    proof fn lemma_recorded_mono(
        m: Seq<(Seq<char>, Seq<usize>)>,
        p: Seq<char>,
        b1: int,
        b2: int,
        k: Seq<char>,
        id: usize,
    )
        requires
            recorded_before(m, p, b1, k, id),
            b1 <= b2 <= m.len(),
        ensures
            recorded_before(m, p, b2, k, id),
    {
        let ei = choose|ei: int|
            0 <= ei < b1 <= m.len() && (#[trigger] m[ei].0) == k && p.is_prefix_of(k)
                && m[ei].1.contains(id);
        assert(0 <= ei < b2 <= m.len() && m[ei].0 == k && p.is_prefix_of(k) && m[ei].1.contains(
            id,
        ));
    }

    /// A recorded id is under some prefix-matching key of the whole index.
    proof fn lemma_recorded_under(
        m: Seq<(Seq<char>, Seq<usize>)>,
        p: Seq<char>,
        b: int,
        k: Seq<char>,
        id: usize,
    )
        requires
            recorded_before(m, p, b, k, id),
        ensures
            under_prefix_at(m, p, k, id),
            under_prefix(m, p, id),
    {
        let ei = choose|ei: int|
            0 <= ei < b <= m.len() && (#[trigger] m[ei].0) == k && p.is_prefix_of(k)
                && m[ei].1.contains(id);
        assert(0 <= ei < m.len() && m[ei].0 == k && p.is_prefix_of(k) && m[ei].1.contains(id));
        assert(under_prefix_at(m, p, k, id));
    }

    /// Scans the keys in ascending order, collecting the ids of every key
    /// carrying the normalized prefix, in (key order, then insertion order),
    /// until the prefix range ends or `limit` ids are collected.
    pub fn search_prefix(&self, prefix: &str, limit: usize) -> (r: Vec<usize>)
        requires
            self.wf(),
        ensures
            ({
                let matches = matching_ids(self.model(), lower_of(prefix@));
                r@ == matches.take(
                    if (limit as int) <= matches.len() {
                        limit as int
                    } else {
                        matches.len() as int
                    },
                )
            }),
            r@.len() <= limit,
            forall|pos: int|
                0 <= pos < r@.len() ==> under_prefix(self.model(), lower_of(prefix@), r@[pos]),
            forall|q1: int, q2: int|
                0 <= q1 < q2 < r@.len() ==> ordered_under(
                    self.model(),
                    lower_of(prefix@),
                    r@[q1],
                    r@[q2],
                ),
    {
        let low = lowercase(prefix);
        let pvec = chars_of(low.as_str());
        let ghost p = lower_of(prefix@);
        let ghost m = self.model();
        let ghost matches = matching_ids(m, p);
        let mut out: Vec<usize> = Vec::new();
        let ghost mut owners: Seq<Seq<char>> = Seq::empty();
        let mut i: usize = 0;
        proof {
            assert(m.take(0) =~= Seq::<(Seq<char>, Seq<usize>)>::empty());
            assert(out@ =~= matches.take(0));
        }
        while i < self.entries.len()
            invariant
                self.wf(),
                i <= self.entries@.len(),
                m == self.model(),
                p == pvec@,
                p == lower_of(prefix@),
                matches == matching_ids(m, p),
                out@.len() <= limit,
                out@.len() <= matches.len(),
                out@ == matches.take(out@.len() as int),
                matching_ids(m.take(i as int), p).len() >= out@.len(),
                out@.len() == matching_ids(m.take(i as int), p).len() || out@.len() == limit,
                owners.len() == out@.len(),
                forall|pos: int|
                    0 <= pos < out@.len() ==> #[trigger] recorded_before(
                        m,
                        p,
                        i as int,
                        owners[pos],
                        out@[pos],
                    ),
                forall|q1: int, q2: int|
                    0 <= q1 <= q2 < owners.len() ==> lex_le(
                        #[trigger] owners[q1],
                        #[trigger] owners[q2],
                    ),
            decreases self.entries.len() - i,
        {
            if out.len() == limit {
                proof {
                    assert forall|pos: int| 0 <= pos < out@.len() implies under_prefix(
                        m,
                        p,
                        out@[pos],
                    ) by {
                        Self::lemma_recorded_under(m, p, i as int, owners[pos], out@[pos]);
                    }
                    assert forall|q1: int, q2: int|
                        0 <= q1 < q2 < out@.len() implies ordered_under(
                        m,
                        p,
                        out@[q1],
                        out@[q2],
                    ) by {
                        Self::lemma_recorded_under(m, p, i as int, owners[q1], out@[q1]);
                        Self::lemma_recorded_under(m, p, i as int, owners[q2], out@[q2]);
                        assert(lex_le(owners[q1], owners[q2]));
                    }
                }
                return out;
            }
            let e = &self.entries[i];
            proof {
                assert(m[i as int] == entry_view(self.entries@[i as int]));
                lemma_matching_split(m, p, i as int);
                assert forall|pos: int| 0 <= pos < out@.len() implies #[trigger] recorded_before(
                    m,
                    p,
                    i as int + 1,
                    owners[pos],
                    out@[pos],
                ) by {
                    Self::lemma_recorded_mono(
                        m,
                        p,
                        i as int,
                        i as int + 1,
                        owners[pos],
                        out@[pos],
                    );
                }
            }
            if starts_with(&e.key, &pvec) {
                let mut j: usize = 0;
                while j < e.ids.len()
                    invariant
                        self.wf(),
                        i < self.entries@.len(),
                        e == &self.entries@[i as int],
                        m == self.model(),
                        p == pvec@,
                        p == lower_of(prefix@),
                        matches == matching_ids(m, p),
                        m[i as int].0 == e.key@,
                        m[i as int].1 == e.ids@,
                        p.is_prefix_of(e.key@),
                        j <= e.ids@.len(),
                        out@.len() <= limit,
                        out@.len() <= matches.len(),
                        out@ == matches.take(out@.len() as int),
                        out@.len() == matching_ids(m.take(i as int), p).len() + j,
                        owners.len() == out@.len(),
                        forall|pos: int|
                            0 <= pos < out@.len() ==> #[trigger] recorded_before(
                                m,
                                p,
                                i as int + 1,
                                owners[pos],
                                out@[pos],
                            ),
                        forall|q1: int, q2: int|
                            0 <= q1 <= q2 < owners.len() ==> lex_le(
                                #[trigger] owners[q1],
                                #[trigger] owners[q2],
                            ),
                    decreases e.ids.len() - j,
                {
                    if out.len() == limit {
                        proof {
                            assert(out@.len() <= matches.len());
                            assert forall|pos: int| 0 <= pos < out@.len() implies under_prefix(
                                m,
                                p,
                                out@[pos],
                            ) by {
                                Self::lemma_recorded_under(
                                    m,
                                    p,
                                    i as int + 1,
                                    owners[pos],
                                    out@[pos],
                                );
                            }
                            assert forall|q1: int, q2: int|
                                0 <= q1 < q2 < out@.len() implies ordered_under(
                                m,
                                p,
                                out@[q1],
                                out@[q2],
                            ) by {
                                Self::lemma_recorded_under(m, p, i as int + 1, owners[q1], out@[q1]);
                                Self::lemma_recorded_under(m, p, i as int + 1, owners[q2], out@[q2]);
                                assert(lex_le(owners[q1], owners[q2]));
                            }
                        }
                        return out;
                    }
                    let x = e.ids[j];
                    let ghost out0 = out@;
                    let ghost owners0 = owners;
                    proof {
                        lemma_matching_split(m, p, i as int);
                        let before = matching_ids(m.take(i as int), p);
                        assert(matching_ids(m.take(i as int + 1), p) == before + e.ids@);
                        assert(matches == matching_ids(m.take(i as int + 1), p) + matching_ids(
                            m.skip(i as int + 1),
                            p,
                        ));
                        assert(matches[before.len() as int + j as int] == e.ids@[j as int]);
                        assert(matches.take(out@.len() as int + 1) =~= matches.take(
                            out@.len() as int,
                        ).push(matches[out@.len() as int]));
                    }
                    out.push(x);
                    proof {
                        owners = owners0.push(e.key@);
                        assert(out@ == out0.push(x));
                        assert forall|pos: int|
                            0 <= pos < out@.len() implies #[trigger] recorded_before(
                            m,
                            p,
                            i as int + 1,
                            owners[pos],
                            out@[pos],
                        ) by {
                            if pos < out0.len() {
                                assert(owners[pos] == owners0[pos]);
                                assert(out@[pos] == out0[pos]);
                            } else {
                                assert(owners[pos] == e.key@);
                                assert(out@[pos] == x);
                                assert(m[i as int].1[j as int] == x);
                                assert(m[i as int].1.contains(x));
                                assert(i as int + 1 <= m.len() && m[i as int].0 == e.key@
                                    && p.is_prefix_of(e.key@) && m[i as int].1.contains(x));
                                assert(recorded_before(m, p, i as int + 1, e.key@, x));
                            }
                        }
                        assert forall|q1: int, q2: int|
                            0 <= q1 <= q2 < owners.len() implies lex_le(
                            #[trigger] owners[q1],
                            #[trigger] owners[q2],
                        ) by {
                            if q2 == owners.len() - 1 {
                                assert(owners[q2] == e.key@);
                                if q1 < q2 {
                                    assert(owners[q1] == owners0[q1]);
                                    assert(recorded_before(m, p, i as int + 1, owners0[q1], out0[q1]));
                                    let ei = choose|ei: int|
                                        0 <= ei < i as int + 1 <= m.len() && (#[trigger] m[ei].0)
                                            == owners0[q1] && p.is_prefix_of(owners0[q1])
                                            && m[ei].1.contains(out0[q1]);
                                    if ei < i {
                                        assert(lex_lt(m[ei].0, m[i as int].0));
                                    } else {
                                        assert(m[ei].0 == m[i as int].0);
                                    }
                                } else {
                                    assert(lex_le(e.key@, e.key@));
                                }
                            } else {
                                assert(owners[q1] == owners0[q1] && owners[q2] == owners0[q2]);
                            }
                        }
                    }
                    j = j + 1;
                }
            } else {
                proof {
                    assert(matching_ids(m.take(i as int + 1), p) == matching_ids(
                        m.take(i as int),
                        p,
                    ) + Seq::<usize>::empty());
                    assert(matching_ids(m.take(i as int + 1), p) =~= matching_ids(
                        m.take(i as int),
                        p,
                    ));
                }
            }
            i = i + 1;
        }
        proof {
            assert(m.take(m.len() as int) =~= m);
            assert(out@.len() <= matches.len());
            assert forall|pos: int| 0 <= pos < out@.len() implies under_prefix(
                m,
                p,
                out@[pos],
            ) by {
                Self::lemma_recorded_under(m, p, i as int, owners[pos], out@[pos]);
            }
            assert forall|q1: int, q2: int| 0 <= q1 < q2 < out@.len() implies ordered_under(
                m,
                p,
                out@[q1],
                out@[q2],
            ) by {
                Self::lemma_recorded_under(m, p, i as int, owners[q1], out@[q1]);
                Self::lemma_recorded_under(m, p, i as int, owners[q2], out@[q2]);
                assert(lex_le(owners[q1], owners[q2]));
            }
        }
        out
    }


    /// Both models agree everywhere but at entry `i`, whose key is unchanged:
    /// the ids of every other key are unchanged.
    proof fn lemma_key_seq_frame(
        m0: Seq<(Seq<char>, Seq<usize>)>,
        m1: Seq<(Seq<char>, Seq<usize>)>,
        pos: int,
        k2: Seq<char>,
    )
        requires
            m0.len() == m1.len(),
            0 <= pos < m0.len(),
            forall|j: int| 0 <= j < m0.len() && j != pos ==> #[trigger] m1[j] == m0[j],
            m1[pos].0 == m0[pos].0,
            k2 != m0[pos].0,
        ensures
            key_seq(m1, k2) == key_seq(m0, k2),
            has_key(m1, k2) == has_key(m0, k2),
        decreases m0.len(),
    {
        if pos == 0 {
            assert(m1[0].0 == m0[0].0 && m0[0].0 != k2);
            assert(m1.drop_first() =~= m0.drop_first());
        } else {
            assert(m1[0] == m0[0]);
            if m0[0].0 != k2 {
                assert forall|j: int|
                    0 <= j < m0.drop_first().len() && j != pos - 1 implies #[trigger] m1
                    .drop_first()[j] == m0.drop_first()[j] by {
                    assert(m1[j + 1] == m0[j + 1]);
                }
                assert(m1.drop_first()[pos - 1] == m1[pos]);
                assert(m0.drop_first()[pos - 1] == m0[pos]);
                Self::lemma_key_seq_frame(m0.drop_first(), m1.drop_first(), pos - 1, k2);
            }
        }
    }

    /// After inserting one entry at `i`, the ids of every key other than the
    /// inserted one are unchanged.
    proof fn lemma_key_seq_insert_frame(
        m0: Seq<(Seq<char>, Seq<usize>)>,
        m1: Seq<(Seq<char>, Seq<usize>)>,
        pos: int,
        k2: Seq<char>,
    )
        requires
            m1.len() == m0.len() + 1,
            0 <= pos <= m0.len(),
            forall|j: int| 0 <= j < pos ==> #[trigger] m1[j] == m0[j],
            forall|j: int| pos <= j < m0.len() ==> #[trigger] m1[j + 1] == m0[j],
            k2 != m1[pos].0,
        ensures
            key_seq(m1, k2) == key_seq(m0, k2),
            has_key(m1, k2) == has_key(m0, k2),
        decreases m0.len(),
    {
        if pos == 0 {
            assert(m1[0].0 != k2);
            assert forall|j: int| 0 <= j < m0.len() implies m1.drop_first()[j] == m0[j] by {
                assert(m1[j + 1] == m0[j]);
            }
            assert(m1.drop_first() =~= m0);
        } else {
            assert(m1[0] == m0[0]);
            if m0[0].0 != k2 {
                assert forall|j: int| 0 <= j < pos - 1 implies #[trigger] m1.drop_first()[j] == m0
                    .drop_first()[j] by {
                    assert(m1[j + 1] == m0[j + 1]);
                }
                assert forall|j: int|
                    pos - 1 <= j < m0.drop_first().len() implies #[trigger] m1.drop_first()[j + 1]
                    == m0.drop_first()[j] by {
                    assert(m1[(j + 1) + 1] == m0[j + 1]);
                }
                assert(m1.drop_first()[pos - 1] == m1[pos]);
                Self::lemma_key_seq_insert_frame(m0.drop_first(), m1.drop_first(), pos - 1, k2);
            }
        }
    }
}

} // verus!
