use vstd::prelude::*;
use crate::text::str_eq;

verus! {

/// A map keyed by strings, kept as a list of entries whose keys are pairwise distinct.
#[derive(Debug, Clone)]
pub struct StrMap<V> {
    entries: Vec<(String, V)>,
}

/// The map that a list of entries stands for: a later entry for a key wins.
pub open spec fn entries_map<V: View>(es: Seq<(String, V)>) -> Map<Seq<char>, V::V>
    decreases es.len(),
{
    if es.len() == 0 {
        Map::empty()
    } else {
        entries_map(es.drop_last()).insert(es.last().0@, es.last().1@)
    }
}

pub open spec fn keys_distinct<V>(es: Seq<(String, V)>) -> bool {
    forall|i: int, j: int| 0 <= i < j < es.len() ==> es[i].0@ != es[j].0@
}

proof fn lemma_entries_map<V: View>(es: Seq<(String, V)>)
    requires
        keys_distinct(es),
    ensures
        forall|k: Seq<char>| #[trigger] entries_map(es).contains_key(k) <==> exists|i: int| 0 <= i < es.len() && es[i].0@ == k,
        forall|i: int| 0 <= i < es.len() ==> #[trigger] entries_map(es)[es[i].0@] == es[i].1@,
        entries_map(es).dom().finite(),
        entries_map(es).dom().len() == es.len(),
    decreases es.len(),
{
    if es.len() > 0 {
        let p = es.drop_last();
        assert(keys_distinct(p));
        lemma_entries_map(p);
        assert forall|k: Seq<char>| #[trigger] entries_map(es).contains_key(k) <==> exists|i: int| 0 <= i < es.len() && es[i].0@ == k by {
            if entries_map(es).contains_key(k) {
                if k == es.last().0@ {
                    assert(es[es.len() - 1].0@ == k);
                } else {
                    assert(entries_map(p).contains_key(k));
                    let i = choose|i: int| 0 <= i < p.len() && p[i].0@ == k;
                    assert(es[i].0@ == k);
                }
            }
            if exists|i: int| 0 <= i < es.len() && es[i].0@ == k {
                let i = choose|i: int| 0 <= i < es.len() && es[i].0@ == k;
                if i < es.len() - 1 {
                    assert(p[i].0@ == k);
                }
            }
        }
        assert forall|i: int| 0 <= i < es.len() implies #[trigger] entries_map(es)[es[i].0@] == es[i].1@ by {
            if i < es.len() - 1 {
                assert(p[i] == es[i]);
                assert(es[i].0@ != es.last().0@);
            }
        }
        assert(!entries_map(p).contains_key(es.last().0@)) by {
            if entries_map(p).contains_key(es.last().0@) {
                let i = choose|i: int| 0 <= i < p.len() && p[i].0@ == es.last().0@;
                assert(es[i].0@ == es[es.len() - 1].0@);
            }
        }
    }
}

impl<V: View> View for StrMap<V> {
    type V = Map<Seq<char>, V::V>;

    closed spec fn view(&self) -> Map<Seq<char>, V::V> {
        entries_map(self.entries@)
    }
}

impl<V: View> StrMap<V> {
    /// Entries hold distinct keys.
    pub closed spec fn wf(&self) -> bool {
        keys_distinct(self.entries@)
    }

    pub fn new() -> (m: Self)
        ensures
            m.wf(),
            m@ == Map::<Seq<char>, V::V>::empty(),
    {
        StrMap { entries: Vec::new() }
    }

    fn find(&self, key: &str) -> (r: Option<usize>)
        requires
            self.wf(),
        ensures
            match r {
                Some(i) => i < self.entries@.len() && self.entries@[i as int].0@ == key@,
                None => forall|i: int| 0 <= i < self.entries@.len() ==> self.entries@[i].0@ != key@,
            },
    {
        let n = self.entries.len();
        for i in 0..n
            invariant
                n == self.entries@.len(),
                forall|j: int| 0 <= j < i ==> self.entries@[j].0@ != key@,
        {
            if str_eq(self.entries[i].0.as_str(), key) {
                return Some(i);
            }
        }
        None
    }

    pub fn len(&self) -> (n: usize)
        requires
            self.wf(),
        ensures
            n == self@.len(),
    {
        proof {
            lemma_entries_map(self.entries@);
        }
        self.entries.len()
    }

    pub fn is_empty(&self) -> (b: bool)
        requires
            self.wf(),
        ensures
            b == (self@.len() == 0),
    {
        proof {
            lemma_entries_map(self.entries@);
        }
        self.entries.len() == 0
    }

    pub fn contains_key(&self, key: &str) -> (b: bool)
        requires
            self.wf(),
        ensures
            b == self@.contains_key(key@),
    {
        proof {
            lemma_entries_map(self.entries@);
        }
        self.find(key).is_some()
    }

    pub fn get(&self, key: &str) -> (r: Option<&V>)
        requires
            self.wf(),
        ensures
            match r {
                Some(v) => self@.contains_key(key@) && v@ == self@[key@],
                None => !self@.contains_key(key@),
            },
    {
        proof {
            lemma_entries_map(self.entries@);
        }
        match self.find(key) {
            Some(i) => Some(&self.entries[i].1),
            None => None,
        }
    }

    pub fn insert(&mut self, key: String, value: V)
        requires
            old(self).wf(),
        ensures
            final(self).wf(),
            final(self)@ == old(self)@.insert(key@, value@),
    {
        proof {
            lemma_entries_map(self.entries@);
        }
        match self.find(key.as_str()) {
            Some(i) => {
                let ghost old_es = self.entries@;
                self.entries.set(i, (key, value));
                proof {
                    lemma_entries_map(self.entries@);
                    assert(keys_distinct(self.entries@));
                    assert(self@ =~= old(self)@.insert(key@, value@)) by {
                        assert forall|k: Seq<char>| #[trigger] self@.contains_key(k) <==> old(self)@.insert(key@, value@).contains_key(k) by {
                            if self@.contains_key(k) {
                                let j = choose|j: int| 0 <= j < self.entries@.len() && self.entries@[j].0@ == k;
                                if j != i {
                                    assert(old_es[j].0@ == k);
                                }
                            }
                            if old(self)@.contains_key(k) && k != key@ {
                                let j = choose|j: int| 0 <= j < old_es.len() && old_es[j].0@ == k;
                                assert(self.entries@[j].0@ == k);
                            }
                            if k == key@ {
                                assert(self.entries@[i as int].0@ == k);
                            }
                        }
                        assert forall|k: Seq<char>| #[trigger] self@.contains_key(k) implies self@[k] == old(self)@.insert(key@, value@)[k] by {
                            let j = choose|j: int| 0 <= j < self.entries@.len() && self.entries@[j].0@ == k;
                            if j != i {
                                assert(old_es[j] == self.entries@[j]);
                            }
                        }
                    }
                }
            },
            None => {
                self.entries.push((key, value));
                proof {
                    assert(self.entries@.drop_last() =~= old(self).entries@);
                }
            },
        }
    }

    pub fn remove(&mut self, key: &str)
        requires
            old(self).wf(),
        ensures
            final(self).wf(),
            final(self)@ == old(self)@.remove(key@),
    {
        proof {
            lemma_entries_map(self.entries@);
        }
        match self.find(key) {
            Some(i) => {
                let ghost old_es = self.entries@;
                self.entries.remove(i);
                proof {
                    assert(self.entries@ =~= old_es.remove(i as int));
                    assert(keys_distinct(self.entries@)) by {
                        assert forall|a: int, b: int| 0 <= a < b < self.entries@.len() implies self.entries@[a].0@ != self.entries@[b].0@ by {
                            let oa = if a < i { a } else { a + 1 };
                            let ob = if b < i { b } else { b + 1 };
                            assert(self.entries@[a] == old_es[oa]);
                            assert(self.entries@[b] == old_es[ob]);
                        }
                    }
                    lemma_entries_map(self.entries@);
                    assert(self@ =~= old(self)@.remove(key@)) by {
                        assert forall|k: Seq<char>| #[trigger] self@.contains_key(k) <==> old(self)@.remove(key@).contains_key(k) by {
                            if self@.contains_key(k) {
                                let j = choose|j: int| 0 <= j < self.entries@.len() && self.entries@[j].0@ == k;
                                let oj = if j < i { j } else { j + 1 };
                                assert(old_es[oj].0@ == k);
                            }
                            if old(self)@.contains_key(k) && k != key@ {
                                let j = choose|j: int| 0 <= j < old_es.len() && old_es[j].0@ == k;
                                assert(j != i);
                                let nj = if j < i { j } else { j - 1 };
                                assert(self.entries@[nj].0@ == k);
                            }
                        }
                        assert forall|k: Seq<char>| #[trigger] self@.contains_key(k) implies self@[k] == old(self)@.remove(key@)[k] by {
                            let j = choose|j: int| 0 <= j < self.entries@.len() && self.entries@[j].0@ == k;
                            let oj = if j < i { j } else { j + 1 };
                            assert(old_es[oj] == self.entries@[j]);
                        }
                    }
                }
            },
            None => {
                proof {
                    assert(self@ =~= old(self)@.remove(key@));
                }
            },
        }
    }

    pub fn clear(&mut self)
        ensures
            final(self).wf(),
            final(self)@ == Map::<Seq<char>, V::V>::empty(),
    {
        self.entries.clear();
    }
}

/// The sum of `f` over the values of a finite map.
pub open spec fn map_total<W>(m: Map<Seq<char>, W>, f: spec_fn(W) -> nat) -> nat
    decreases m.dom().len(),
    when m.dom().finite()
{
    if m.dom().len() == 0 {
        0
    } else {
        let k = m.dom().choose();
        f(m[k]) + map_total(m.remove(k), f)
    }
}

/// The sum of `f` over a sequence.
pub open spec fn seq_total<W>(s: Seq<W>, f: spec_fn(W) -> nat) -> nat
    decreases s.len(),
{
    if s.len() == 0 {
        0
    } else {
        seq_total(s.drop_last(), f) + f(s.last())
    }
}

/// Any value can be taken out of the sum first.
pub proof fn lemma_map_total_remove<W>(m: Map<Seq<char>, W>, f: spec_fn(W) -> nat, k: Seq<char>)
    requires
        m.dom().finite(),
        m.contains_key(k),
    ensures
        map_total(m, f) == f(m[k]) + map_total(m.remove(k), f),
    decreases m.dom().len(),
{
    let d = m.dom().choose();
    if d != k {
        let md = m.remove(d);
        let mk = m.remove(k);
        lemma_map_total_remove(md, f, k);
        lemma_map_total_remove(mk, f, d);
        assert(md.remove(k) =~= mk.remove(d));
    } else {
        assert(m.remove(d) =~= m.remove(k));
    }
}

/// Adding a new key adds its value to the sum.
pub proof fn lemma_map_total_insert<W>(m: Map<Seq<char>, W>, f: spec_fn(W) -> nat, k: Seq<char>, w: W)
    requires
        m.dom().finite(),
        !m.contains_key(k),
    ensures
        map_total(m.insert(k, w), f) == map_total(m, f) + f(w),
{
    lemma_map_total_remove(m.insert(k, w), f, k);
    assert(m.insert(k, w).remove(k) =~= m);
}

/// The empty map sums to nothing.
pub proof fn lemma_map_total_empty<W>(f: spec_fn(W) -> nat)
    ensures
        map_total(Map::<Seq<char>, W>::empty(), f) == 0,
{
    assert(Map::<Seq<char>, W>::empty().dom() =~= Set::empty());
}

impl<V: View> StrMap<V> {
    /// The values, in the order in which the map keeps them.
    pub closed spec fn value_seq(&self) -> Seq<V::V> {
        self.entries@.map_values(|e: (String, V)| e.1@)
    }

    /// The number of values kept.
    pub fn count(&self) -> (n: usize)
        requires
            self.wf(),
        ensures
            n == self.value_seq().len(),
            n == self@.len(),
    {
        proof {
            lemma_entries_map(self.entries@);
        }
        self.entries.len()
    }

    /// The value kept at position `i`.
    pub fn value_at(&self, i: usize) -> (r: &V)
        requires
            i < self.value_seq().len(),
        ensures
            r@ == self.value_seq()[i as int],
    {
        &self.entries[i].1
    }

    /// The values sum as the map does.
    pub proof fn lemma_value_total(&self, f: spec_fn(V::V) -> nat)
        requires
            self.wf(),
        ensures
            seq_total(self.value_seq(), f) == map_total(self@, f),
            self@.dom().finite(),
    {
        lemma_entries_total(self.entries@, f);
        lemma_entries_map(self.entries@);
    }
}

proof fn lemma_entries_total<V: View>(es: Seq<(String, V)>, f: spec_fn(V::V) -> nat)
    requires
        keys_distinct(es),
    ensures
        seq_total(es.map_values(|e: (String, V)| e.1@), f) == map_total(entries_map(es), f),
    decreases es.len(),
{
    lemma_entries_map(es);
    if es.len() == 0 {
        lemma_map_total_empty::<V::V>(f);
    } else {
        let p = es.drop_last();
        assert(keys_distinct(p));
        lemma_entries_total(p, f);
        lemma_entries_map(p);
        assert(es.map_values(|e: (String, V)| e.1@).drop_last() =~= p.map_values(
            |e: (String, V)| e.1@,
        ));
        assert(!entries_map(p).contains_key(es.last().0@)) by {
            if entries_map(p).contains_key(es.last().0@) {
                let i = choose|i: int| 0 <= i < p.len() && p[i].0@ == es.last().0@;
                assert(es[i].0@ == es[es.len() - 1].0@);
            }
        }
        lemma_map_total_insert(entries_map(p), f, es.last().0@, es.last().1@);
    }
}

/// A prefix sums to no more than the whole.
pub proof fn lemma_seq_total_prefix<W>(s: Seq<W>, f: spec_fn(W) -> nat, i: int)
    requires
        0 <= i <= s.len(),
    ensures
        seq_total(s.take(i), f) <= seq_total(s, f),
    decreases s.len() - i,
{
    if i < s.len() {
        lemma_seq_total_prefix(s, f, i + 1);
        assert(s.take(i + 1).drop_last() =~= s.take(i));
    } else {
        assert(s.take(i) =~= s);
    }
}

/// Entry lists that agree key by key and value by value, as views, stand for the same map.
proof fn lemma_entries_map_views<V: View>(a: Seq<(String, V)>, b: Seq<(String, V)>)
    requires
        a.len() == b.len(),
        forall|j: int| 0 <= j < a.len() ==> #[trigger] a[j].0@ == b[j].0@ && a[j].1@ == b[j].1@,
    ensures
        entries_map(a) == entries_map(b),
        keys_distinct(a) ==> keys_distinct(b),
    decreases a.len(),
{
    if a.len() > 0 {
        let pa = a.drop_last();
        let pb = b.drop_last();
        assert forall|j: int| 0 <= j < pa.len() implies #[trigger] pa[j].0@ == pb[j].0@ && pa[j].1@
            == pb[j].1@ by {
            assert(a[j].0@ == b[j].0@ && a[j].1@ == b[j].1@);
        }
        lemma_entries_map_views(pa, pb);
        assert(a[a.len() - 1].0@ == b[b.len() - 1].0@);
    }
    if keys_distinct(a) {
        assert forall|i: int, j: int| 0 <= i < j < b.len() implies b[i].0@ != b[j].0@ by {
            assert(a[i].0@ == b[i].0@);
            assert(a[j].0@ == b[j].0@);
        }
    }
}

impl StrMap<String> {
    /// A copy of the map.
    pub fn duplicate(&self) -> (r: Self)
        requires
            self.wf(),
        ensures
            r.wf(),
            r@ == self@,
    {
        let mut es: Vec<(String, String)> = Vec::new();
        let n = self.entries.len();
        for i in 0..n
            invariant
                n == self.entries@.len(),
                es@ == self.entries@.take(i as int),
        {
            let k = self.entries[i].0.clone();
            let v = self.entries[i].1.clone();
            es.push((k, v));
            assert(es@ =~= self.entries@.take(i + 1));
        }
        assert(es@ =~= self.entries@);
        StrMap { entries: es }
    }
}

impl StrMap<crate::css::Value> {
    /// A copy of the map.
    pub fn duplicate(&self) -> (r: Self)
        requires
            self.wf(),
        ensures
            r.wf(),
            r@ == self@,
    {
        let mut es: Vec<(String, crate::css::Value)> = Vec::new();
        let n = self.entries.len();
        let mut i: usize = 0;
        while i < n
            invariant
                n == self.entries@.len(),
                i <= n,
                es@.len() == i,
                forall|j: int| 0 <= j < i ==> #[trigger] es@[j].0@ == self.entries@[j].0@ && es@[j].1@
                    == self.entries@[j].1@,
            decreases n - i,
        {
            let k = self.entries[i].0.clone();
            let v = self.entries[i].1.duplicate();
            let ghost before = es@;
            es.push((k, v));
            assert forall|j: int| 0 <= j < i + 1 implies #[trigger] es@[j].0@ == self.entries@[j].0@
                && es@[j].1@ == self.entries@[j].1@ by {
                if j < i {
                    assert(es@[j] == before[j]);
                }
            }
            i += 1;
        }
        proof {
            lemma_entries_map_views(self.entries@, es@);
        }
        StrMap { entries: es }
    }
}

} // verus!
