//! A key-unique map from variable names to values, stored as a vector of
//! pairs kept in strictly increasing key order so that its content alone
//! fixes its layout.
use vstd::prelude::*;
use crate::lex::{seq_lt, str_lt, lemma_lt_ne, lemma_lt_total, lemma_lt_transitive};

verus! {

/// Keys strictly increase along the sequence (so no key occurs twice).
pub open spec fn keys_sorted(p: Seq<(Seq<char>, Seq<char>)>) -> bool {
    forall|i: int, j: int| 0 <= i < j < p.len() ==> seq_lt(#[trigger] p[i].0, #[trigger] p[j].0)
}

/// Some pair of `p` has key `k`.
pub open spec fn has_key(p: Seq<(Seq<char>, Seq<char>)>, k: Seq<char>) -> bool {
    exists|i: int| 0 <= i < p.len() && (#[trigger] p[i]).0 == k
}

/// The map that a sequence of pairs with unique keys stands for.
pub open spec fn pairs_view(p: Seq<(Seq<char>, Seq<char>)>) -> Map<Seq<char>, Seq<char>> {
    Map::new(
        |k: Seq<char>| has_key(p, k),
        |k: Seq<char>| p[choose|i: int| 0 <= i < p.len() && (#[trigger] p[i]).0 == k].1,
    )
}

/// The pairs of owned strings, seen as pairs of character sequences.
pub open spec fn string_pairs(v: Seq<(String, String)>) -> Seq<(Seq<char>, Seq<char>)> {
    v.map_values(|e: (String, String)| (e.0@, e.1@))
}

pub proof fn lemma_view_index(p: Seq<(Seq<char>, Seq<char>)>, i: int)
    requires
        keys_sorted(p),
        0 <= i < p.len(),
    ensures
        pairs_view(p).contains_key(p[i].0),
        pairs_view(p)[p[i].0] == p[i].1,
{
    assert(has_key(p, p[i].0));
    let j = choose|j: int| 0 <= j < p.len() && (#[trigger] p[j]).0 == p[i].0;
    if j < i {
        lemma_lt_ne(p[j].0, p[i].0);
    } else if i < j {
        lemma_lt_ne(p[i].0, p[j].0);
    }
}

pub proof fn lemma_view_prefix(p: Seq<(Seq<char>, Seq<char>)>, i: int)
    requires
        keys_sorted(p),
        0 <= i < p.len(),
    ensures
        pairs_view(p.take(i + 1)) =~= pairs_view(p.take(i)).insert(p[i].0, p[i].1),
{
    let a = p.take(i);
    let b = p.take(i + 1);
    assert forall|k: Seq<char>| #[trigger] pairs_view(b).contains_key(k) <==> (has_key(a, k) || k
        == p[i].0) by {
        if has_key(b, k) {
            let j = choose|j: int| 0 <= j < b.len() && (#[trigger] b[j]).0 == k;
            if j < i {
                assert(a[j] == b[j]);
            }
        }
        if has_key(a, k) {
            let j = choose|j: int| 0 <= j < a.len() && (#[trigger] a[j]).0 == k;
            assert(b[j] == a[j]);
        }
        if k == p[i].0 {
            assert(b[i] == p[i]);
        }
    }
    assert forall|k: Seq<char>| #[trigger] pairs_view(b).contains_key(k) implies pairs_view(b)[k]
        == pairs_view(a).insert(p[i].0, p[i].1)[k] by {
        let j = choose|j: int| 0 <= j < b.len() && (#[trigger] b[j]).0 == k;
        lemma_view_index(b, j);
        if j < i {
            lemma_view_index(a, j);
            lemma_lt_ne(p[j].0, p[i].0);
        }
    }
}

proof fn lemma_prefix_len(p: Seq<(Seq<char>, Seq<char>)>, i: int)
    requires
        keys_sorted(p),
        0 <= i <= p.len(),
    ensures
        pairs_view(p.take(i)).dom().finite(),
        pairs_view(p.take(i)).dom().len() == i,
    decreases i,
{
    if i == 0 {
        assert(pairs_view(p.take(0)) =~= Map::empty());
    } else {
        lemma_prefix_len(p, i - 1);
        lemma_view_prefix(p, i - 1);
        if pairs_view(p.take(i - 1)).contains_key(p[i - 1].0) {
            let j = choose|j: int| 0 <= j < p.take(i - 1).len() && (#[trigger] p.take(i - 1)[j]).0
                == p[i - 1].0;
            lemma_lt_ne(p[j].0, p[i - 1].0);
        }
    }
}

/// A map from variable names to values; each name occurs once.
#[derive(Clone, Debug)]
pub struct EnvironmentVariableMap {
    entries: Vec<(String, String)>,
}

impl View for EnvironmentVariableMap {
    type V = Map<Seq<char>, Seq<char>>;

    closed spec fn view(&self) -> Map<Seq<char>, Seq<char>> {
        pairs_view(self.pairs())
    }
}

impl Default for EnvironmentVariableMap {
    fn default() -> (r: Self)
        ensures
            r.wf(),
            r@ == Map::<Seq<char>, Seq<char>>::empty(),
    {
        EnvironmentVariableMap::new()
    }
}

impl EnvironmentVariableMap {
    /// The entries in the order in which they are stored.
    pub closed spec fn pairs(&self) -> Seq<(Seq<char>, Seq<char>)> {
        string_pairs(self.entries@)
    }

    /// Well-formedness: keys strictly increase along the entries.
    pub closed spec fn wf(&self) -> bool {
        keys_sorted(self.pairs())
    }

    pub proof fn lemma_view_is_pairs(&self)
        ensures
            self@ == pairs_view(self.pairs()),
    {
    }

    pub proof fn lemma_pairs_sorted(&self)
        requires
            self.wf(),
        ensures
            keys_sorted(self.pairs()),
    {
    }

    /// An empty map.
    pub fn new() -> (r: Self)
        ensures
            r.wf(),
            r@ == Map::<Seq<char>, Seq<char>>::empty(),
    {
        let r = EnvironmentVariableMap { entries: Vec::new() };
        assert(r@ =~= Map::<Seq<char>, Seq<char>>::empty());
        r
    }

    /// The number of variables.
    pub fn len(&self) -> (r: usize)
        requires
            self.wf(),
        ensures
            r == self@.len(),
            r == self.pairs().len(),
    {
        proof {
            self.lemma_dom_len();
        }
        self.entries.len()
    }

    proof fn lemma_dom_len(&self)
        requires
            self.wf(),
        ensures
            self@.dom().len() == self.entries@.len(),
            self@.dom().finite(),
    {
        let p = self.pairs();
        lemma_prefix_len(p, p.len() as int);
        assert(p.take(p.len() as int) =~= p);
    }

    /// The first position whose key does not sort before `key`.
    fn position(&self, key: &String) -> (j: usize)
        requires
            self.wf(),
        ensures
            j <= self.entries@.len(),
            forall|i: int| 0 <= i < j ==> seq_lt(#[trigger] self.pairs()[i].0, key@),
            j < self.entries@.len() ==> !seq_lt(self.pairs()[j as int].0, key@),
    {
        let mut j: usize = 0;
        while j < self.entries.len()
            invariant
                j <= self.entries@.len(),
                forall|i: int| 0 <= i < j ==> seq_lt(#[trigger] self.pairs()[i].0, key@),
            decreases self.entries@.len() - j,
        {
            if !str_lt(self.entries[j].0.as_str(), key.as_str()) {
                return j;
            }
            j = j + 1;
        }
        j
    }

    /// Sets `key` to `value`, replacing an earlier value of `key`.
    pub fn insert(&mut self, key: String, value: String)
        requires
            old(self).wf(),
        ensures
            final(self).wf(),
            final(self)@ == old(self)@.insert(key@, value@),
    {
        let j = self.position(&key);
        let ghost p0 = self.pairs();
        let ghost k = key@;
        let ghost v = value@;
        if j < self.entries.len() && self.entries[j].0 == key {
            self.entries.remove(j);
            self.entries.insert(j, (key, value));
            let ghost p1 = self.pairs();
            assert(p1 =~= p0.update(j as int, (k, v)));
            assert(keys_sorted(p1)) by {
                assert forall|a: int, b: int| 0 <= a < b < p1.len() implies seq_lt(
                    #[trigger] p1[a].0,
                    #[trigger] p1[b].0,
                ) by {
                    assert(p0[a].0 == p1[a].0 && p0[b].0 == p1[b].0);
                }
            }
            proof {
                lemma_view_index(p0, j as int);
                self.lemma_view_update(p0, j as int, k, v);
            }
        } else {
            self.entries.insert(j, (key, value));
            let ghost p1 = self.pairs();
            assert(p1 =~= p0.insert(j as int, (k, v)));
            proof {
                if (j as int) < p0.len() {
                    lemma_lt_total(p0[j as int].0, k);
                }
                assert forall|a: int, b: int| 0 <= a < b < p1.len() implies seq_lt(
                    #[trigger] p1[a].0,
                    #[trigger] p1[b].0,
                ) by {
                    if b < j {
                    } else if b == j {
                    } else if a < j {
                        if b - 1 > j {
                            lemma_lt_transitive(k, p0[j as int].0, p1[b].0);
                        }
                        lemma_lt_transitive(p1[a].0, k, p1[b].0);
                    } else if a == j {
                        if b - 1 > j {
                            lemma_lt_transitive(k, p0[j as int].0, p1[b].0);
                        }
                    } else {
                    }
                }
                self.lemma_view_insert(p0, j as int, k, v);
            }
        }
    }

    proof fn lemma_view_update(
        &self,
        p0: Seq<(Seq<char>, Seq<char>)>,
        j: int,
        k: Seq<char>,
        v: Seq<char>,
    )
        requires
            keys_sorted(p0),
            keys_sorted(self.pairs()),
            0 <= j < p0.len(),
            p0[j].0 == k,
            self.pairs() == p0.update(j, (k, v)),
        ensures
            self@ =~= pairs_view(p0).insert(k, v),
    {
        let p1 = self.pairs();
        assert forall|x: Seq<char>| #[trigger] has_key(p1, x) <==> has_key(p0, x) by {
            if has_key(p1, x) {
                let i = choose|i: int| 0 <= i < p1.len() && (#[trigger] p1[i]).0 == x;
                assert(p0[i].0 == x);
            }
            if has_key(p0, x) {
                let i = choose|i: int| 0 <= i < p0.len() && (#[trigger] p0[i]).0 == x;
                assert(p1[i].0 == x);
            }
        }
        lemma_view_index(p0, j);
        assert forall|x: Seq<char>| #[trigger] has_key(p1, x) implies pairs_view(p1)[x]
            == pairs_view(p0).insert(k, v)[x] by {
            let i = choose|i: int| 0 <= i < p1.len() && (#[trigger] p1[i]).0 == x;
            lemma_view_index(p1, i);
            lemma_view_index(p0, i);
            if i < j {
                lemma_lt_ne(p0[i].0, p0[j].0);
            } else if i > j {
                lemma_lt_ne(p0[j].0, p0[i].0);
            }
        }
    }

    proof fn lemma_view_insert(
        &self,
        p0: Seq<(Seq<char>, Seq<char>)>,
        j: int,
        k: Seq<char>,
        v: Seq<char>,
    )
        requires
            keys_sorted(p0),
            keys_sorted(self.pairs()),
            0 <= j <= p0.len(),
            self.pairs() == p0.insert(j, (k, v)),
        ensures
            self@ =~= pairs_view(p0).insert(k, v),
    {
        let p1 = self.pairs();
        assert forall|x: Seq<char>| #[trigger] has_key(p1, x) <==> (has_key(p0, x) || x == k) by {
            if has_key(p1, x) {
                let i = choose|i: int| 0 <= i < p1.len() && (#[trigger] p1[i]).0 == x;
                if i < j {
                    assert(p0[i].0 == x);
                } else if i > j {
                    assert(p0[i - 1].0 == x);
                }
            }
            if has_key(p0, x) {
                let i = choose|i: int| 0 <= i < p0.len() && (#[trigger] p0[i]).0 == x;
                if i < j {
                    assert(p1[i].0 == x);
                } else {
                    assert(p1[i + 1].0 == x);
                }
            }
            if x == k {
                assert(p1[j].0 == x);
            }
        }
        assert forall|x: Seq<char>| #[trigger] has_key(p1, x) implies pairs_view(p1)[x]
            == pairs_view(p0).insert(k, v)[x] by {
            let i = choose|i: int| 0 <= i < p1.len() && (#[trigger] p1[i]).0 == x;
            lemma_view_index(p1, i);
            lemma_view_index(p1, j);
            if i < j {
                lemma_view_index(p0, i);
                lemma_lt_ne(x, k);
            } else if i > j {
                lemma_view_index(p0, i - 1);
                lemma_lt_ne(k, x);
            }
        }
    }

    proof fn lemma_view_remove(&self, p0: Seq<(Seq<char>, Seq<char>)>, j: int)
        requires
            keys_sorted(p0),
            0 <= j < p0.len(),
            self.pairs() == p0.remove(j),
        ensures
            keys_sorted(self.pairs()),
            self@ =~= pairs_view(p0).remove(p0[j].0),
    {
        let p1 = self.pairs();
        let k = p0[j].0;
        assert forall|a: int, b: int| 0 <= a < b < p1.len() implies seq_lt(
            #[trigger] p1[a].0,
            #[trigger] p1[b].0,
        ) by {
            let a0 = if a < j { a } else { a + 1 };
            let b0 = if b < j { b } else { b + 1 };
            assert(p1[a] == p0[a0] && p1[b] == p0[b0]);
        }
        assert forall|x: Seq<char>| #[trigger] has_key(p1, x) <==> (has_key(p0, x) && x != k) by {
            if has_key(p1, x) {
                let i = choose|i: int| 0 <= i < p1.len() && (#[trigger] p1[i]).0 == x;
                let i0 = if i < j { i } else { i + 1 };
                assert(p0[i0].0 == x);
                if i0 < j {
                    lemma_lt_ne(p0[i0].0, k);
                } else {
                    lemma_lt_ne(k, p0[i0].0);
                }
            }
            if has_key(p0, x) && x != k {
                let i = choose|i: int| 0 <= i < p0.len() && (#[trigger] p0[i]).0 == x;
                if i < j {
                    assert(p1[i].0 == x);
                } else {
                    assert(p1[i - 1].0 == x);
                }
            }
        }
        assert forall|x: Seq<char>| #[trigger] has_key(p1, x) implies pairs_view(p1)[x]
            == pairs_view(p0)[x] by {
            let i = choose|i: int| 0 <= i < p1.len() && (#[trigger] p1[i]).0 == x;
            lemma_view_index(p1, i);
            if i < j {
                lemma_view_index(p0, i);
            } else {
                lemma_view_index(p0, i + 1);
            }
        }
    }

    proof fn lemma_absent(&self, key: Seq<char>, j: int)
        requires
            self.wf(),
            0 <= j <= self.pairs().len(),
            forall|i: int| 0 <= i < j ==> seq_lt(#[trigger] self.pairs()[i].0, key),
            j < self.pairs().len() ==> !seq_lt(self.pairs()[j].0, key),
            j < self.pairs().len() ==> self.pairs()[j].0 != key,
        ensures
            !self@.contains_key(key),
    {
        let p0 = self.pairs();
        if has_key(p0, key) {
            let i = choose|i: int| 0 <= i < p0.len() && (#[trigger] p0[i]).0 == key;
            if i < j {
                lemma_lt_ne(p0[i].0, key);
            } else if i > j {
                assert(seq_lt(p0[j].0, p0[i].0));
                lemma_lt_total(p0[j].0, key);
            }
        }
    }

    /// Removes `key` and its value, if present.
    pub fn remove(&mut self, key: &String)
        requires
            old(self).wf(),
        ensures
            final(self).wf(),
            final(self)@ == old(self)@.remove(key@),
    {
        let j = self.position(key);
        let ghost p0 = self.pairs();
        if j < self.entries.len() && self.entries[j].0 == *key {
            self.entries.remove(j);
            proof {
                assert(self.pairs() =~= p0.remove(j as int));
                self.lemma_view_remove(p0, j as int);
            }
        } else {
            proof {
                self.lemma_absent(key@, j as int);
                assert(self@ =~= pairs_view(p0).remove(key@));
            }
        }
    }

    /// The value of `key`, if present.
    pub fn get(&self, key: &String) -> (r: Option<&String>)
        requires
            self.wf(),
        ensures
            r is Some <==> self@.contains_key(key@),
            r is Some ==> r->0@ == self@[key@],
    {
        let j = self.position(key);
        let ghost p0 = self.pairs();
        if j < self.entries.len() && self.entries[j].0 == *key {
            proof {
                lemma_view_index(p0, j as int);
            }
            Some(&self.entries[j].1)
        } else {
            proof {
                self.lemma_absent(key@, j as int);
            }
            None
        }
    }

    /// Adds every entry of `another` into `self`; where both hold a key,
    /// the value of `another` wins.
    pub fn union(&mut self, another: &EnvironmentVariableMap)
        requires
            old(self).wf(),
            another.wf(),
        ensures
            final(self).wf(),
            final(self)@ == old(self)@.union_prefer_right(another@),
    {
        let ghost start = self@;
        let ghost q = another.pairs();
        let n = another.entries.len();
        let mut i: usize = 0;
        assert(start.union_prefer_right(pairs_view(q.take(0))) =~= start);
        while i < n
            invariant
                n == another.entries@.len(),
                q == another.pairs(),
                keys_sorted(q),
                i <= n,
                self.wf(),
                self@ == start.union_prefer_right(pairs_view(q.take(i as int))),
            decreases n - i,
        {
            let key = another.entries[i].0.clone();
            let value = another.entries[i].1.clone();
            proof {
                lemma_view_prefix(q, i as int);
            }
            self.insert(key, value);
            assert(self@ =~= start.union_prefer_right(pairs_view(q.take(i + 1))));
            i = i + 1;
        }
        assert(q.take(n as int) =~= q);
    }

    /// Removes from `self` every key that `another` holds, whatever its value.
    pub fn difference(&mut self, another: &EnvironmentVariableMap)
        requires
            old(self).wf(),
            another.wf(),
        ensures
            final(self).wf(),
            final(self)@ == old(self)@.remove_keys(another@.dom()),
    {
        let ghost start = self@;
        let ghost q = another.pairs();
        let n = another.entries.len();
        let mut i: usize = 0;
        assert(start.remove_keys(pairs_view(q.take(0)).dom()) =~= start);
        while i < n
            invariant
                n == another.entries@.len(),
                q == another.pairs(),
                keys_sorted(q),
                i <= n,
                self.wf(),
                self@ == start.remove_keys(pairs_view(q.take(i as int)).dom()),
            decreases n - i,
        {
            proof {
                lemma_view_prefix(q, i as int);
            }
            self.remove(&another.entries[i].0);
            assert(self@ =~= start.remove_keys(pairs_view(q.take(i + 1)).dom()));
            i = i + 1;
        }
        assert(q.take(n as int) =~= q);
    }

    /// The entries as owned pairs, in increasing key order.
    pub fn into_inner(self) -> (r: Vec<(String, String)>)
        ensures
            string_pairs(r@) == self.pairs(),
    {
        self.entries
    }

    /// The entry at position `i` in key order.
    pub fn entry_at(&self, i: usize) -> (r: (&String, &String))
        requires
            i < self.pairs().len(),
        ensures
            r.0@ == self.pairs()[i as int].0,
            r.1@ == self.pairs()[i as int].1,
    {
        (&self.entries[i].0, &self.entries[i].1)
    }

    /// The variable names, in increasing order.
    pub fn names(&self) -> (r: Vec<String>)
        requires
            self.wf(),
        ensures
            r@.len() == self.pairs().len(),
            forall|i: int| 0 <= i < r@.len() ==> (#[trigger] r@[i])@ == self.pairs()[i].0,
            forall|i: int, j: int| 0 <= i < j < r@.len() ==> seq_lt(#[trigger] r@[i]@, #[trigger] r@[j]@),
    {
        let mut r: Vec<String> = Vec::new();
        let mut i: usize = 0;
        while i < self.entries.len()
            invariant
                i <= self.entries@.len(),
                r@.len() == i,
                forall|j: int| 0 <= j < i ==> (#[trigger] r@[j])@ == self.pairs()[j].0,
            decreases self.entries@.len() - i,
        {
            r.push(self.entries[i].0.clone());
            i = i + 1;
        }
        let ghost p = self.pairs();
        assert forall|a: int, b: int| 0 <= a < b < r@.len() implies seq_lt(#[trigger] r@[a]@, #[trigger] r@[b]@) by {
            assert(seq_lt(p[a].0, p[b].0));
        }
        r
    }

}


/// Union then difference with the same map is not undone: every key of
/// `another` is gone afterwards, also the keys that `this` held before, so
/// the result differs from `this` as soon as they share a key.
pub proof fn lemma_union_then_difference(
    this: Map<Seq<char>, Seq<char>>,
    another: Map<Seq<char>, Seq<char>>,
)
    ensures
        this.union_prefer_right(another).remove_keys(another.dom()) == this.remove_keys(
            another.dom(),
        ),
        (exists|k: Seq<char>| this.contains_key(k) && another.contains_key(k))
            ==> this.union_prefer_right(another).remove_keys(another.dom()) != this,
{
    assert(this.union_prefer_right(another).remove_keys(another.dom()) =~= this.remove_keys(
        another.dom(),
    ));
    if exists|k: Seq<char>| this.contains_key(k) && another.contains_key(k) {
        let k = choose|k: Seq<char>| this.contains_key(k) && another.contains_key(k);
        assert(!this.remove_keys(another.dom()).contains_key(k));
    }
}

proof fn lemma_view_drop_first(p: Seq<(Seq<char>, Seq<char>)>)
    requires
        keys_sorted(p),
        p.len() > 0,
    ensures
        keys_sorted(p.drop_first()),
        pairs_view(p.drop_first()) =~= pairs_view(p).remove(p[0].0),
{
    let t = p.drop_first();
    assert forall|a: int, b: int| 0 <= a < b < t.len() implies seq_lt(#[trigger] t[a].0, #[trigger] t[b].0) by {
        assert(t[a] == p[a + 1] && t[b] == p[b + 1]);
    }
    assert forall|x: Seq<char>| #[trigger] has_key(t, x) <==> (has_key(p, x) && x != p[0].0) by {
        if has_key(t, x) {
            let i = choose|i: int| 0 <= i < t.len() && (#[trigger] t[i]).0 == x;
            assert(p[i + 1].0 == x);
            lemma_lt_ne(p[0].0, p[i + 1].0);
        }
        if has_key(p, x) && x != p[0].0 {
            let i = choose|i: int| 0 <= i < p.len() && (#[trigger] p[i]).0 == x;
            assert(t[i - 1].0 == x);
        }
    }
    assert forall|x: Seq<char>| #[trigger] has_key(t, x) implies pairs_view(t)[x] == pairs_view(p)[x] by {
        let i = choose|i: int| 0 <= i < t.len() && (#[trigger] t[i]).0 == x;
        lemma_view_index(t, i);
        lemma_view_index(p, i + 1);
    }
}

/// Two key-sorted pair sequences that stand for the same map are the same
/// sequence.
pub proof fn lemma_sorted_pairs_unique(p: Seq<(Seq<char>, Seq<char>)>, q: Seq<(Seq<char>, Seq<char>)>)
    requires
        keys_sorted(p),
        keys_sorted(q),
        pairs_view(p) == pairs_view(q),
    ensures
        p == q,
    decreases p.len(),
{
    if p.len() == 0 {
        if q.len() > 0 {
            lemma_view_index(q, 0);
        }
        assert(p =~= q);
    } else {
        lemma_view_index(p, 0);
        if q.len() == 0 {
            assert(!has_key(q, p[0].0));
        } else {
            lemma_view_index(q, 0);
            let i = choose|i: int| 0 <= i < p.len() && (#[trigger] p[i]).0 == q[0].0;
            let j = choose|j: int| 0 <= j < q.len() && (#[trigger] q[j]).0 == p[0].0;
            if i > 0 && j > 0 {
                assert(seq_lt(p[0].0, p[i].0));
                assert(seq_lt(q[0].0, q[j].0));
                lemma_lt_total(p[0].0, q[0].0);
            }
            assert(p[0].0 == q[0].0);
            assert(p[0] == q[0]);
            lemma_view_drop_first(p);
            lemma_view_drop_first(q);
            lemma_sorted_pairs_unique(p.drop_first(), q.drop_first());
            assert(p =~= seq![p[0]] + p.drop_first());
            assert(q =~= seq![q[0]] + q.drop_first());
        }
    }
}

impl EnvironmentVariableMap {
    /// Two well-formed maps with the same content store the same entries in
    /// the same order.
    pub proof fn lemma_same_content_same_pairs(&self, other: &EnvironmentVariableMap)
        requires
            self.wf(),
            other.wf(),
            self@ == other@,
        ensures
            self.pairs() == other.pairs(),
    {
        lemma_sorted_pairs_unique(self.pairs(), other.pairs());
    }
}

} // verus!
