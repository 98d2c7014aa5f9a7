//! A finite map from byte strings to byte strings, kept as a vector of entries
//! in the strict order of their keys.
//!
//! The object store, the branch table, the staging index, a tree and the
//! working tree are all maps of this kind. Its view is a `Map`; the order of
//! its entries is a function of that view, so what is written out from a map
//! depends on what it holds and not on how it was built.

use vstd::prelude::*;
use crate::bytes::{
    equal, has_prefix, lemma_lex_asymmetric, lemma_lex_irreflexive, lemma_lex_total,
    lemma_lex_transitive, less_than, lex_lt, starts_with, to_vec,
};

verus! {

/// A key with its value.
pub struct Entry {
    pub key: Vec<u8>,
    pub value: Vec<u8>,
}

/// A sequence of keys with their values.
pub type Pairs = Seq<(Seq<u8>, Seq<u8>)>;

/// The keys and values of a sequence of entries.
pub open spec fn pairs_of(es: Seq<Entry>) -> Pairs {
    Seq::new(es.len(), |i: int| (es[i].key@, es[i].value@))
}

/// The keys stand in strict order: each comes before all later ones.
pub open spec fn sorted(ps: Pairs) -> bool {
    forall|i: int, j: int| #![trigger ps[i], ps[j]] 0 <= i < j < ps.len() ==> lex_lt(ps[i].0, ps[j].0)
}

/// Some pair has the key `k`.
pub open spec fn has_key(ps: Pairs, k: Seq<u8>) -> bool {
    exists|i: int| #![trigger ps[i]] 0 <= i < ps.len() && ps[i].0 == k
}

/// An index at which the key `k` stands.
pub open spec fn index_of_key(ps: Pairs, k: Seq<u8>) -> int {
    choose|i: int| #![trigger ps[i]] 0 <= i < ps.len() && ps[i].0 == k
}

/// The map that a sequence of pairs stands for.
pub open spec fn map_of(ps: Pairs) -> Map<Seq<u8>, Seq<u8>> {
    Map::new(|k: Seq<u8>| has_key(ps, k), |k: Seq<u8>| ps[index_of_key(ps, k)].1)
}

/// The pairs of a finite map in the strict order of their keys.
pub open spec fn sorted_pairs(m: Map<Seq<u8>, Seq<u8>>) -> Pairs {
    choose|ps: Pairs| sorted(ps) && map_of(ps) == m
}

/// The part of a map whose keys do not start with `prefix`.
pub open spec fn without_prefix(m: Map<Seq<u8>, Seq<u8>>, prefix: Seq<u8>) -> Map<
    Seq<u8>,
    Seq<u8>,
> {
    Map::new(|k: Seq<u8>| m.contains_key(k) && !has_prefix(k, prefix), |k: Seq<u8>| m[k])
}

/// In a sorted sequence no key stands twice.
pub proof fn lemma_sorted_distinct(ps: Pairs)
    requires
        sorted(ps),
    ensures
        forall|i: int, j: int|
            #![trigger ps[i], ps[j]]
            0 <= i < ps.len() && 0 <= j < ps.len() && i != j ==> ps[i].0 != ps[j].0,
{
    assert forall|i: int, j: int|
        #![trigger ps[i], ps[j]]
        0 <= i < ps.len() && 0 <= j < ps.len() && i != j implies ps[i].0 != ps[j].0 by {
        if ps[i].0 == ps[j].0 {
            lemma_lex_irreflexive(ps[i].0);
            if i < j {
                assert(lex_lt(ps[i].0, ps[j].0));
            } else {
                assert(lex_lt(ps[j].0, ps[i].0));
            }
        }
    }
}

/// The map of a sorted sequence holds each pair of it.
pub proof fn lemma_map_of_index(ps: Pairs, i: int)
    requires
        sorted(ps),
        0 <= i < ps.len(),
    ensures
        map_of(ps).contains_key(ps[i].0),
        map_of(ps)[ps[i].0] == ps[i].1,
{
    lemma_sorted_distinct(ps);
    let j = index_of_key(ps, ps[i].0);
    assert(0 <= j < ps.len() && ps[j].0 == ps[i].0);
}

/// A map that holds the pairs of a sorted sequence and no other key is the
/// map of that sequence.
pub proof fn lemma_map_of_is(ps: Pairs, m: Map<Seq<u8>, Seq<u8>>)
    requires
        sorted(ps),
        forall|i: int|
            #![trigger ps[i]]
            0 <= i < ps.len() ==> m.contains_key(ps[i].0) && m[ps[i].0] == ps[i].1,
        forall|k: Seq<u8>| m.contains_key(k) ==> has_key(ps, k),
    ensures
        map_of(ps) == m,
{
    assert forall|k: Seq<u8>| map_of(ps).contains_key(k) implies m.contains_key(k) && m[k]
        == map_of(ps)[k] by {
        let i = index_of_key(ps, k);
        assert(m.contains_key(ps[i].0));
    }
    assert(map_of(ps) =~= m);
}

/// With the last pair of a sorted sequence left out, its map loses that key.
pub proof fn lemma_map_of_drop_last(ps: Pairs)
    requires
        sorted(ps),
        ps.len() > 0,
    ensures
        sorted(ps.drop_last()),
        map_of(ps.drop_last()) == map_of(ps).remove(ps.last().0),
{
    let qs = ps.drop_last();
    let m = map_of(ps).remove(ps.last().0);
    assert(sorted(qs)) by {
        assert forall|i: int, j: int| #![trigger qs[i], qs[j]] 0 <= i < j < qs.len() implies lex_lt(
            qs[i].0,
            qs[j].0,
        ) by {
            assert(qs[i] == ps[i] && qs[j] == ps[j]);
        }
    }
    lemma_sorted_distinct(ps);
    assert forall|i: int| #![trigger qs[i]] 0 <= i < qs.len() implies m.contains_key(qs[i].0)
        && m[qs[i].0] == qs[i].1 by {
        assert(qs[i] == ps[i]);
        lemma_map_of_index(ps, i);
        assert(ps[i].0 != ps[ps.len() - 1].0);
    }
    assert forall|k: Seq<u8>| m.contains_key(k) implies has_key(qs, k) by {
        let i = index_of_key(ps, k);
        assert(ps[i].0 == k);
        assert(i != ps.len() - 1);
        assert(qs[i] == ps[i]);
    }
    lemma_map_of_is(qs, m);
}

/// Two sorted sequences that stand for the same map are the same sequence.
pub proof fn lemma_sorted_unique(ps: Pairs, qs: Pairs)
    requires
        sorted(ps),
        sorted(qs),
        map_of(ps) == map_of(qs),
    ensures
        ps == qs,
    decreases ps.len(),
{
    if ps.len() == 0 {
        if qs.len() > 0 {
            lemma_map_of_index(qs, 0);
            let i = index_of_key(ps, qs[0].0);
            assert(0 <= i < ps.len());
        }
        assert(ps =~= qs);
    } else {
        let a = ps.last();
        lemma_map_of_index(ps, ps.len() - 1);
        assert(has_key(qs, a.0));
        let j = index_of_key(qs, a.0);
        assert(qs[j].0 == a.0);
        let b = qs.last();
        lemma_map_of_index(qs, qs.len() - 1);
        assert(has_key(ps, b.0));
        let i = index_of_key(ps, b.0);
        assert(ps[i].0 == b.0);
        if j < qs.len() - 1 {
            // a.0 < b.0 in qs, and b.0 <= a.0 in ps
            assert(lex_lt(qs[j].0, qs[qs.len() - 1].0));
            if i < ps.len() - 1 {
                assert(lex_lt(ps[i].0, ps[ps.len() - 1].0));
                lemma_lex_asymmetric(a.0, b.0);
            } else {
                lemma_lex_irreflexive(a.0);
            }
        }
        assert(a.0 == b.0);
        assert(a.1 == b.1);
        lemma_map_of_drop_last(ps);
        lemma_map_of_drop_last(qs);
        lemma_sorted_unique(ps.drop_last(), qs.drop_last());
        assert(ps =~= ps.drop_last().push(a));
        assert(qs =~= qs.drop_last().push(b));
    }
}

/// The map of a sorted sequence has as many keys as the sequence has pairs.
pub proof fn lemma_map_of_finite(ps: Pairs)
    requires
        sorted(ps),
    ensures
        map_of(ps).dom().finite(),
        map_of(ps).dom().len() == ps.len(),
    decreases ps.len(),
{
    if ps.len() == 0 {
        assert(map_of(ps).dom() =~= Set::<Seq<u8>>::empty());
    } else {
        lemma_map_of_drop_last(ps);
        lemma_map_of_finite(ps.drop_last());
        lemma_map_of_index(ps, ps.len() - 1);
        let smaller = map_of(ps.drop_last()).dom();
        assert(!smaller.contains(ps.last().0));
        assert(map_of(ps).dom() =~= smaller.insert(ps.last().0));
    }
}

/// A sorted sequence is the sequence of sorted pairs of its map.
pub proof fn lemma_sorted_pairs(ps: Pairs)
    requires
        sorted(ps),
    ensures
        sorted_pairs(map_of(ps)) == ps,
{
    let qs = sorted_pairs(map_of(ps));
    assert(sorted(qs) && map_of(qs) == map_of(ps));
    lemma_sorted_unique(qs, ps);
}

/// What a new pair, put at its place in the order, does to the map.
pub proof fn lemma_insert_at(ps: Pairs, pos: int, k: Seq<u8>, v: Seq<u8>)
    requires
        sorted(ps),
        0 <= pos <= ps.len(),
        forall|i: int| #![trigger ps[i]] 0 <= i < pos ==> lex_lt(ps[i].0, k),
        pos < ps.len() ==> lex_lt(k, ps[pos].0),
    ensures
        sorted(ps.insert(pos, (k, v))),
        map_of(ps.insert(pos, (k, v))) == map_of(ps).insert(k, v),
{
    let qs = ps.insert(pos, (k, v));
    let m = map_of(ps).insert(k, v);
    assert forall|i: int, j: int| #![trigger qs[i], qs[j]] 0 <= i < j < qs.len() implies lex_lt(
        qs[i].0,
        qs[j].0,
    ) by {
        if j < pos {
            assert(qs[i] == ps[i] && qs[j] == ps[j]);
        } else if j == pos {
            assert(qs[i] == ps[i]);
        } else if i < pos {
            assert(qs[i] == ps[i] && qs[j] == ps[j - 1]);
            if i < j - 1 {
                assert(lex_lt(ps[i].0, ps[j - 1].0));
            }
        } else if i == pos {
            assert(qs[j] == ps[j - 1]);
            if pos < j - 1 {
                assert(lex_lt(ps[pos].0, ps[j - 1].0));
                lemma_lex_transitive(k, ps[pos].0, ps[j - 1].0);
            }
        } else {
            assert(qs[i] == ps[i - 1] && qs[j] == ps[j - 1]);
        }
    }
    lemma_lex_irreflexive(k);
    assert forall|i: int| #![trigger qs[i]] 0 <= i < qs.len() implies m.contains_key(qs[i].0)
        && m[qs[i].0] == qs[i].1 by {
        if i < pos {
            assert(qs[i] == ps[i]);
            lemma_map_of_index(ps, i);
        } else if i > pos {
            assert(qs[i] == ps[i - 1]);
            lemma_map_of_index(ps, i - 1);
            if pos < i - 1 {
                assert(lex_lt(ps[pos].0, ps[i - 1].0));
                lemma_lex_transitive(k, ps[pos].0, ps[i - 1].0);
            }
        }
    }
    assert forall|x: Seq<u8>| m.contains_key(x) implies has_key(qs, x) by {
        if x == k {
            assert(qs[pos].0 == k);
        } else {
            let i = index_of_key(ps, x);
            assert(ps[i].0 == x);
            if i < pos {
                assert(qs[i] == ps[i]);
            } else {
                assert(qs[i + 1] == ps[i]);
            }
        }
    }
    lemma_map_of_is(qs, m);
}

/// What a new value for the key at `pos` does to the map.
pub proof fn lemma_update_at(ps: Pairs, pos: int, v: Seq<u8>)
    requires
        sorted(ps),
        0 <= pos < ps.len(),
    ensures
        sorted(ps.update(pos, (ps[pos].0, v))),
        map_of(ps.update(pos, (ps[pos].0, v))) == map_of(ps).insert(ps[pos].0, v),
{
    let k = ps[pos].0;
    let qs = ps.update(pos, (k, v));
    let m = map_of(ps).insert(k, v);
    assert forall|i: int, j: int| #![trigger qs[i], qs[j]] 0 <= i < j < qs.len() implies lex_lt(
        qs[i].0,
        qs[j].0,
    ) by {
        assert(qs[i].0 == ps[i].0 && qs[j].0 == ps[j].0);
    }
    lemma_sorted_distinct(ps);
    assert forall|i: int| #![trigger qs[i]] 0 <= i < qs.len() implies m.contains_key(qs[i].0)
        && m[qs[i].0] == qs[i].1 by {
        if i != pos {
            assert(qs[i] == ps[i]);
            lemma_map_of_index(ps, i);
            assert(ps[i].0 != ps[pos].0);
        }
    }
    assert forall|x: Seq<u8>| m.contains_key(x) implies has_key(qs, x) by {
        if x == k {
            assert(qs[pos].0 == k);
        } else {
            let i = index_of_key(ps, x);
            assert(ps[i].0 == x);
            assert(qs[i].0 == x);
        }
    }
    lemma_map_of_is(qs, m);
}

/// What leaving out the pair at `pos` does to the map.
pub proof fn lemma_remove_at(ps: Pairs, pos: int)
    requires
        sorted(ps),
        0 <= pos < ps.len(),
    ensures
        sorted(ps.remove(pos)),
        map_of(ps.remove(pos)) == map_of(ps).remove(ps[pos].0),
{
    let k = ps[pos].0;
    let qs = ps.remove(pos);
    let m = map_of(ps).remove(k);
    assert forall|i: int, j: int| #![trigger qs[i], qs[j]] 0 <= i < j < qs.len() implies lex_lt(
        qs[i].0,
        qs[j].0,
    ) by {
        let i0 = if i < pos { i } else { i + 1 };
        let j0 = if j < pos { j } else { j + 1 };
        assert(qs[i] == ps[i0] && qs[j] == ps[j0]);
    }
    lemma_sorted_distinct(ps);
    assert forall|i: int| #![trigger qs[i]] 0 <= i < qs.len() implies m.contains_key(qs[i].0)
        && m[qs[i].0] == qs[i].1 by {
        let i0 = if i < pos { i } else { i + 1 };
        assert(qs[i] == ps[i0]);
        lemma_map_of_index(ps, i0);
        assert(ps[i0].0 != ps[pos].0);
    }
    assert forall|x: Seq<u8>| m.contains_key(x) implies has_key(qs, x) by {
        let i = index_of_key(ps, x);
        assert(ps[i].0 == x);
        if i < pos {
            assert(qs[i] == ps[i]);
        } else {
            assert(qs[i - 1] == ps[i]);
        }
    }
    lemma_map_of_is(qs, m);
}

/// A key that lies between two neighbours of a sorted sequence, or before
/// its first or after its last pair, is no key of it.
pub proof fn lemma_absent(ps: Pairs, pos: int, k: Seq<u8>)
    requires
        sorted(ps),
        0 <= pos <= ps.len(),
        forall|i: int| #![trigger ps[i]] 0 <= i < pos ==> lex_lt(ps[i].0, k),
        pos < ps.len() ==> lex_lt(k, ps[pos].0),
    ensures
        !map_of(ps).contains_key(k),
{
    if has_key(ps, k) {
        let i = index_of_key(ps, k);
        assert(ps[i].0 == k);
        lemma_lex_irreflexive(k);
        if i >= pos {
            if i > pos {
                assert(lex_lt(ps[pos].0, ps[i].0));
                lemma_lex_asymmetric(k, ps[pos].0);
            }
        }
    }
}

/// The map that holds `val(k)` for each key `k` among the first `n` pairs
/// that `keep` admits.
pub open spec fn built(
    ps: Pairs,
    n: int,
    keep: spec_fn(Seq<u8>) -> bool,
    val: spec_fn(Seq<u8>) -> Seq<u8>,
) -> Map<Seq<u8>, Seq<u8>> {
    Map::new(
        |k: Seq<u8>|
            (exists|j: int| #![trigger ps[j]] 0 <= j < n && j < ps.len() && ps[j].0 == k) && keep(k),
        |k: Seq<u8>| val(k),
    )
}

/// The part of a map whose keys `keep` admits, with `val(k)` for each.
pub open spec fn selected(
    m: Map<Seq<u8>, Seq<u8>>,
    keep: spec_fn(Seq<u8>) -> bool,
    val: spec_fn(Seq<u8>) -> Seq<u8>,
) -> Map<Seq<u8>, Seq<u8>> {
    Map::new(|k: Seq<u8>| m.contains_key(k) && keep(k), |k: Seq<u8>| val(k))
}

/// From no pairs the empty map is built.
pub proof fn lemma_built_none(
    ps: Pairs,
    keep: spec_fn(Seq<u8>) -> bool,
    val: spec_fn(Seq<u8>) -> Seq<u8>,
)
    ensures
        built(ps, 0, keep, val) == Map::<Seq<u8>, Seq<u8>>::empty(),
{
    assert(built(ps, 0, keep, val) =~= Map::<Seq<u8>, Seq<u8>>::empty());
}

/// One pair more adds its key, if `keep` admits it, and nothing else.
pub proof fn lemma_built_step(
    ps: Pairs,
    n: int,
    keep: spec_fn(Seq<u8>) -> bool,
    val: spec_fn(Seq<u8>) -> Seq<u8>,
)
    requires
        0 <= n < ps.len(),
    ensures
        built(ps, n + 1, keep, val) == if keep(ps[n].0) {
            built(ps, n, keep, val).insert(ps[n].0, val(ps[n].0))
        } else {
            built(ps, n, keep, val)
        },
{
    let a = built(ps, n + 1, keep, val);
    let b = if keep(ps[n].0) {
        built(ps, n, keep, val).insert(ps[n].0, val(ps[n].0))
    } else {
        built(ps, n, keep, val)
    };
    assert forall|k: Seq<u8>| a.contains_key(k) implies b.contains_key(k) by {
        let j = choose|j: int| #![trigger ps[j]] 0 <= j < n + 1 && j < ps.len() && ps[j].0 == k;
        if j < n {
            assert(ps[j].0 == k);
        }
    }
    assert forall|k: Seq<u8>| b.contains_key(k) implies a.contains_key(k) by {
        if k == ps[n].0 && keep(ps[n].0) {
            assert(ps[n].0 == k);
        } else {
            let j = choose|j: int| #![trigger ps[j]] 0 <= j < n && j < ps.len() && ps[j].0 == k;
            assert(ps[j].0 == k);
        }
    }
    assert(a =~= b);
}

/// From all pairs the admitted part of their map is built.
pub proof fn lemma_built_all(
    ps: Pairs,
    keep: spec_fn(Seq<u8>) -> bool,
    val: spec_fn(Seq<u8>) -> Seq<u8>,
)
    ensures
        built(ps, ps.len() as int, keep, val) == selected(map_of(ps), keep, val),
{
    let a = built(ps, ps.len() as int, keep, val);
    let b = selected(map_of(ps), keep, val);
    assert forall|k: Seq<u8>| a.contains_key(k) implies b.contains_key(k) by {
        let j = choose|j: int|
            #![trigger ps[j]]
            0 <= j < ps.len() as int && j < ps.len() && ps[j].0 == k;
        assert(ps[j].0 == k);
    }
    assert forall|k: Seq<u8>| b.contains_key(k) implies a.contains_key(k) by {
        let j = index_of_key(ps, k);
        assert(ps[j].0 == k);
    }
    assert(a =~= b);
}

/// A map from byte strings to byte strings.
pub struct ByteMap {
    entries: Vec<Entry>,
}

impl View for ByteMap {
    type V = Map<Seq<u8>, Seq<u8>>;

    open spec fn view(&self) -> Map<Seq<u8>, Seq<u8>> {
        map_of(self.pairs())
    }
}

impl ByteMap {
    /// The entries in the order in which the map holds them.
    pub closed spec fn pairs(&self) -> Pairs {
        pairs_of(self.entries@)
    }

    #[verifier::type_invariant]
    spec fn ordered(&self) -> bool {
        sorted(pairs_of(self.entries@))
    }

    /// The empty map.
    pub fn new() -> (r: ByteMap)
        ensures
            r@ == Map::<Seq<u8>, Seq<u8>>::empty(),
            r.pairs() == Seq::<(Seq<u8>, Seq<u8>)>::empty(),
    {
        let r = ByteMap { entries: Vec::new() };
        assert(r.pairs() =~= Seq::<(Seq<u8>, Seq<u8>)>::empty());
        assert(r@ =~= Map::<Seq<u8>, Seq<u8>>::empty());
        r
    }

    /// The number of entries. The entries stand in the order of their keys,
    /// which the map alone determines.
    pub fn len(&self) -> (n: usize)
        ensures
            n == self.pairs().len(),
            sorted(self.pairs()),
            self.pairs() == sorted_pairs(self@),
            self@.dom().finite(),
            n == self@.dom().len(),
    {
        proof {
            use_type_invariant(self);
            lemma_sorted_pairs(self.pairs());
            lemma_map_of_finite(self.pairs());
        }
        self.entries.len()
    }

    /// Whether the map holds nothing.
    pub fn is_empty(&self) -> (r: bool)
        ensures
            r == (self.pairs().len() == 0),
            r == (self@ == Map::<Seq<u8>, Seq<u8>>::empty()),
    {
        proof {
            use_type_invariant(self);
            if self.pairs().len() > 0 {
                lemma_map_of_index(self.pairs(), 0);
            } else {
                assert(self@ =~= Map::<Seq<u8>, Seq<u8>>::empty());
            }
        }
        self.entries.len() == 0
    }

    /// The key of the entry at index `i`.
    pub fn key_at(&self, i: usize) -> (r: &Vec<u8>)
        requires
            i < self.pairs().len(),
        ensures
            r@ == self.pairs()[i as int].0,
            self@.contains_key(r@),
    {
        proof {
            use_type_invariant(self);
            lemma_map_of_index(self.pairs(), i as int);
        }
        &self.entries[i].key
    }

    /// The value of the entry at index `i`.
    pub fn value_at(&self, i: usize) -> (r: &Vec<u8>)
        requires
            i < self.pairs().len(),
        ensures
            r@ == self.pairs()[i as int].1,
            self@[self.pairs()[i as int].0] == r@,
    {
        proof {
            use_type_invariant(self);
            lemma_map_of_index(self.pairs(), i as int);
        }
        &self.entries[i].value
    }

    /// The index at which `key` stands or would have to stand, and whether it
    /// stands there.
    fn position(&self, key: &[u8]) -> (r: (usize, bool))
        ensures
            r.0 <= self.pairs().len(),
            forall|i: int|
                #![trigger self.pairs()[i]]
                0 <= i < r.0 ==> lex_lt(self.pairs()[i].0, key@),
            r.1 ==> r.0 < self.pairs().len() && self.pairs()[r.0 as int].0 == key@,
            !r.1 ==> (r.0 < self.pairs().len() ==> lex_lt(key@, self.pairs()[r.0 as int].0)),
            r.1 == self@.contains_key(key@),
    {
        proof {
            use_type_invariant(self);
        }
        let mut i: usize = 0;
        while i < self.entries.len()
            invariant
                i <= self.pairs().len(),
                self.pairs().len() == self.entries@.len(),
                sorted(self.pairs()),
                forall|j: int| #![trigger self.pairs()[j]] 0 <= j < i ==> lex_lt(self.pairs()[j].0, key@),
            decreases self.entries@.len() - i,
        {
            let entry_key: &Vec<u8> = &self.entries[i].key;
            assert(entry_key@ == self.pairs()[i as int].0);
            if !less_than(entry_key.as_slice(), key) {
                let found: bool = equal(entry_key.as_slice(), key);
                proof {
                    lemma_lex_total(entry_key@, key@);
                    if found {
                        lemma_map_of_index(self.pairs(), i as int);
                    } else {
                        lemma_absent(self.pairs(), i as int, key@);
                    }
                }
                return (i, found);
            }
            i += 1;
        }
        proof {
            lemma_absent(self.pairs(), i as int, key@);
        }
        (i, false)
    }

    /// Whether the map holds `key`.
    pub fn contains_key(&self, key: &[u8]) -> (r: bool)
        ensures
            r == self@.contains_key(key@),
    {
        self.position(key).1
    }

    /// The value of `key`, if the map holds it.
    pub fn get(&self, key: &[u8]) -> (r: Option<&Vec<u8>>)
        ensures
            match r {
                Some(v) => self@.contains_key(key@) && v@ == self@[key@],
                None => !self@.contains_key(key@),
            },
    {
        let (pos, found) = self.position(key);
        if found {
            proof {
                use_type_invariant(self);
                lemma_map_of_index(self.pairs(), pos as int);
            }
            Some(&self.entries[pos].value)
        } else {
            None
        }
    }

    /// Sets the value of `key`. Returns whether the map held `key` before.
    pub fn insert(&mut self, key: Vec<u8>, value: Vec<u8>) -> (replaced: bool)
        ensures
            final(self)@ == old(self)@.insert(key@, value@),
            replaced == old(self)@.contains_key(key@),
    {
        proof {
            use_type_invariant(&*self);
        }
        let (pos, found) = self.position(key.as_slice());
        let ghost before = self.pairs();
        let mut entries: Vec<Entry> = Vec::new();
        std::mem::swap(&mut entries, &mut self.entries);
        assert(pairs_of(entries@) == before);
        if found {
            entries.set(pos, Entry { key, value });
            proof {
                lemma_update_at(before, pos as int, value@);
                assert(pairs_of(entries@) =~= before.update(pos as int, (before[pos as int].0, value@)));
            }
        } else {
            entries.insert(pos, Entry { key, value });
            proof {
                lemma_insert_at(before, pos as int, key@, value@);
                assert(pairs_of(entries@) =~= before.insert(pos as int, (key@, value@)));
            }
        }
        self.entries = entries;
        found
    }

    /// Takes `key` out of the map. Returns the value that it had, if any.
    pub fn remove(&mut self, key: &[u8]) -> (r: Option<Vec<u8>>)
        ensures
            final(self)@ == old(self)@.remove(key@),
            match r {
                Some(v) => old(self)@.contains_key(key@) && v@ == old(self)@[key@],
                None => !old(self)@.contains_key(key@),
            },
    {
        proof {
            use_type_invariant(&*self);
        }
        let (pos, found) = self.position(key);
        if !found {
            assert(self@.remove(key@) =~= self@);
            return None;
        }
        let ghost before = self.pairs();
        let mut entries: Vec<Entry> = Vec::new();
        std::mem::swap(&mut entries, &mut self.entries);
        assert(pairs_of(entries@) == before);
        let entry: Entry = entries.remove(pos);
        proof {
            lemma_remove_at(before, pos as int);
            lemma_map_of_index(before, pos as int);
            assert(pairs_of(entries@) =~= before.remove(pos as int));
        }
        self.entries = entries;
        Some(entry.value)
    }

    /// Takes out every key that starts with `prefix`.
    pub fn remove_prefixed(&mut self, prefix: &[u8])
        ensures
            final(self)@ == without_prefix(old(self)@, prefix@),
    {
        proof {
            use_type_invariant(&*self);
        }
        let ghost before = self.pairs();
        let mut entries: Vec<Entry> = Vec::new();
        std::mem::swap(&mut entries, &mut self.entries);
        assert(pairs_of(entries@) == before);
        let mut kept: Vec<Entry> = Vec::new();
        let ghost mut from: Seq<int> = Seq::empty();
        let mut i: usize = 0;
        while i < entries.len()
            invariant
                i <= entries@.len(),
                pairs_of(entries@) == before,
                sorted(before),
                from.len() == kept@.len(),
                forall|j: int|
                    #![trigger from[j]]
                    0 <= j < from.len() ==> 0 <= from[j] < i && pairs_of(kept@)[j] == before[from[j]]
                        && !has_prefix(before[from[j]].0, prefix@),
                forall|j: int, l: int|
                    #![trigger from[j], from[l]]
                    0 <= j < l < from.len() ==> from[j] < from[l],
                forall|l: int|
                    #![trigger before[l]]
                    0 <= l < i && !has_prefix(before[l].0, prefix@) ==> from.contains(l),
            decreases entries@.len() - i,
        {
            let entry: &Entry = &entries[i];
            assert(before[i as int] == (entry.key@, entry.value@));
            if !starts_with(entry.key.as_slice(), prefix) {
                let ghost old_from = from;
                let ghost old_kept = pairs_of(kept@);
                kept.push(Entry { key: to_vec(entry.key.as_slice()), value: to_vec(entry.value.as_slice()) });
                proof {
                    from = from.push(i as int);
                    assert(pairs_of(kept@) =~= old_kept.push(before[i as int]));
                    assert forall|l: int|
                        #![trigger before[l]]
                        0 <= l < i + 1 && !has_prefix(before[l].0, prefix@) implies from.contains(
                        l,
                    ) by {
                        if l < i {
                            assert(old_from.contains(l));
                            let j = choose|j: int| 0 <= j < old_from.len() && old_from[j] == l;
                            assert(from[j] == l);
                        } else {
                            assert(from[from.len() - 1] == l);
                        }
                    }
                }
            }
            i += 1;
        }
        proof {
            let qs = pairs_of(kept@);
            let m = without_prefix(map_of(before), prefix@);
            assert forall|a: int, b: int| #![trigger qs[a], qs[b]] 0 <= a < b < qs.len() implies lex_lt(
                qs[a].0,
                qs[b].0,
            ) by {
                assert(from[a] < from[b]);
                assert(qs[a] == before[from[a]] && qs[b] == before[from[b]]);
            }
            assert forall|a: int| #![trigger qs[a]] 0 <= a < qs.len() implies m.contains_key(qs[a].0)
                && m[qs[a].0] == qs[a].1 by {
                assert(qs[a] == before[from[a]]);
                lemma_map_of_index(before, from[a]);
            }
            assert forall|x: Seq<u8>| m.contains_key(x) implies has_key(qs, x) by {
                let l = index_of_key(before, x);
                assert(before[l].0 == x);
                assert(from.contains(l));
                let j = choose|j: int| 0 <= j < from.len() && from[j] == l;
                assert(qs[j] == before[from[j]]);
            }
            lemma_map_of_is(qs, m);
        }
        self.entries = kept;
    }

    /// Takes out every entry.
    pub fn clear(&mut self)
        ensures
            final(self)@ == Map::<Seq<u8>, Seq<u8>>::empty(),
    {
        let entries: Vec<Entry> = Vec::new();
        assert(pairs_of(entries@) =~= Seq::<(Seq<u8>, Seq<u8>)>::empty());
        self.entries = entries;
        assert(self@ =~= Map::<Seq<u8>, Seq<u8>>::empty());
    }

    /// A map with the same entries.
    pub fn duplicate(&self) -> (r: ByteMap)
        ensures
            r@ == self@,
            r.pairs() == self.pairs(),
    {
        proof {
            use_type_invariant(self);
        }
        let mut entries: Vec<Entry> = Vec::new();
        let mut i: usize = 0;
        while i < self.entries.len()
            invariant
                i <= self.entries@.len(),
                pairs_of(entries@) == pairs_of(self.entries@).subrange(0, i as int),
            decreases self.entries@.len() - i,
        {
            let entry: &Entry = &self.entries[i];
            let ghost copied = pairs_of(entries@);
            entries.push(Entry { key: to_vec(entry.key.as_slice()), value: to_vec(entry.value.as_slice()) });
            assert(pairs_of(entries@) =~= copied.push(pairs_of(self.entries@)[i as int]));
            assert(pairs_of(entries@) =~= pairs_of(self.entries@).subrange(0, i + 1));
            i += 1;
        }
        assert(pairs_of(entries@) =~= pairs_of(self.entries@));
        ByteMap { entries }
    }
}

} // verus!
