//! The pending-update map: record names paired with their target values,
//! in insertion order, with unique names.

use vstd::prelude::*;

use crate::text::str_eq;

verus! {

/// The value paired with the first entry named `k`, if any.
pub open spec fn lookup(es: Seq<(Seq<char>, Seq<char>)>, k: Seq<char>) -> Option<Seq<char>>
    decreases es.len(),
{
    if es.len() == 0 {
        None
    } else if es[0].0 == k {
        Some(es[0].1)
    } else {
        lookup(es.drop_first(), k)
    }
}

pub open spec fn values_of(es: Seq<(Seq<char>, Seq<char>)>) -> Seq<Seq<char>> {
    es.map_values(|e: (Seq<char>, Seq<char>)| e.1)
}

pub open spec fn unique_keys(es: Seq<(Seq<char>, Seq<char>)>) -> bool {
    forall|i: int, j: int| 0 <= i < j < es.len() ==> (#[trigger] es[i]).0 != (#[trigger] es[j]).0
}

/// Entry insertion: an existing entry named `k` is re-valued in place,
/// otherwise the pair is appended.
pub open spec fn map_insert(
    es: Seq<(Seq<char>, Seq<char>)>,
    k: Seq<char>,
    v: Seq<char>,
) -> Seq<(Seq<char>, Seq<char>)>
    decreases es.len(),
{
    if es.len() == 0 {
        seq![(k, v)]
    } else if es[0].0 == k {
        seq![(k, v)] + es.drop_first()
    } else {
        seq![es[0]] + map_insert(es.drop_first(), k, v)
    }
}

proof fn lemma_map_insert_found(es: Seq<(Seq<char>, Seq<char>)>, k: Seq<char>, v: Seq<char>, i: int)
    requires
        0 <= i < es.len(),
        es[i].0 == k,
        forall|j: int| 0 <= j < i ==> (#[trigger] es[j]).0 != k,
    ensures
        map_insert(es, k, v) == es.update(i, (k, v)),
    decreases i,
{
    if i == 0 {
        assert(map_insert(es, k, v) =~= es.update(0, (k, v)));
    } else {
        assert(forall|j: int| 0 <= j < i - 1 ==> (#[trigger] es.drop_first()[j]).0 != k);
        lemma_map_insert_found(es.drop_first(), k, v, i - 1);
        assert(seq![es[0]] + es.drop_first().update(i - 1, (k, v)) =~= es.update(i, (k, v)));
    }
}

proof fn lemma_map_insert_absent(es: Seq<(Seq<char>, Seq<char>)>, k: Seq<char>, v: Seq<char>)
    requires
        forall|j: int| 0 <= j < es.len() ==> (#[trigger] es[j]).0 != k,
    ensures
        map_insert(es, k, v) == es.push((k, v)),
    decreases es.len(),
{
    if es.len() == 0 {
        assert(map_insert(es, k, v) =~= es.push((k, v)));
    } else {
        lemma_map_insert_absent(es.drop_first(), k, v);
        assert(seq![es[0]] + es.drop_first().push((k, v)) =~= es.push((k, v)));
    }
}

/// The first index carrying key `k`, when one exists.
pub proof fn lemma_find_first_key(es: Seq<(Seq<char>, Seq<char>)>, k: Seq<char>) -> (i: int)
    requires
        exists|j: int| 0 <= j < es.len() && (#[trigger] es[j]).0 == k,
    ensures
        0 <= i < es.len(),
        es[i].0 == k,
        forall|j: int| 0 <= j < i ==> (#[trigger] es[j]).0 != k,
    decreases es.len(),
{
    if es[0].0 == k {
        0
    } else {
        let w = choose|j: int| 0 <= j < es.len() && (#[trigger] es[j]).0 == k;
        assert(es.drop_first()[w - 1].0 == k);
        let i0 = lemma_find_first_key(es.drop_first(), k);
        assert(forall|j: int| 1 <= j < i0 + 1 ==> (#[trigger] es[j]).0 == es.drop_first()[j - 1].0);
        i0 + 1
    }
}

/// `lookup` returns the entry at the first index carrying its key.
pub proof fn lemma_lookup_at_first(es: Seq<(Seq<char>, Seq<char>)>, k: Seq<char>, i: int)
    requires
        0 <= i < es.len(),
        es[i].0 == k,
        forall|j: int| 0 <= j < i ==> (#[trigger] es[j]).0 != k,
    ensures
        lookup(es, k) == Some(es[i].1),
    decreases i,
{
    if i > 0 {
        assert(forall|j: int| 0 <= j < i - 1 ==> (#[trigger] es.drop_first()[j]).0 == es[j + 1].0);
        lemma_lookup_at_first(es.drop_first(), k, i - 1);
    }
}

/// Insertion keeps names unique and binds `k` to `v`.
pub proof fn lemma_map_insert_unique(es: Seq<(Seq<char>, Seq<char>)>, k: Seq<char>, v: Seq<char>)
    requires
        unique_keys(es),
    ensures
        unique_keys(map_insert(es, k, v)),
        lookup(map_insert(es, k, v), k) == Some(v),
{
    let r = map_insert(es, k, v);
    if exists|j: int| 0 <= j < es.len() && (#[trigger] es[j]).0 == k {
        let i = lemma_find_first_key(es, k);
        lemma_map_insert_found(es, k, v, i);
        assert(unique_keys(r)) by {
            assert(forall|j: int| 0 <= j < r.len() ==> (#[trigger] r[j]).0 == es[j].0);
        }
        lemma_lookup_at_first(r, k, i);
    } else {
        assert(forall|j: int| 0 <= j < es.len() ==> (#[trigger] es[j]).0 != k);
        lemma_map_insert_absent(es, k, v);
        assert(unique_keys(r)) by {
            assert(forall|j: int| 0 <= j < es.len() ==> (#[trigger] r[j]).0 == es[j].0);
            assert(r[es.len() as int].0 == k);
        }
        lemma_lookup_at_first(r, k, es.len() as int);
    }
}

/// The pending-update map, built once per reconciliation pass.
pub struct UpdateMap {
    entries: Vec<(String, String)>,
}

impl View for UpdateMap {
    type V = Seq<(Seq<char>, Seq<char>)>;

    closed spec fn view(&self) -> Seq<(Seq<char>, Seq<char>)> {
        self.entries.deep_view()
    }
}

impl UpdateMap {
    /// Names are pairwise distinct.
    pub open spec fn wf(&self) -> bool {
        unique_keys(self@)
    }

    pub fn new() -> (r: UpdateMap)
        ensures
            r@ == Seq::<(Seq<char>, Seq<char>)>::empty(),
            r.wf(),
    {
        let r = UpdateMap { entries: Vec::new() };
        proof {
            assert(r@ =~= Seq::<(Seq<char>, Seq<char>)>::empty());
        }
        r
    }

    pub fn len(&self) -> (r: usize)
        ensures
            r == self@.len(),
    {
        self.entries.len()
    }

    /// The name of the entry at `i`.
    pub fn key_at(&self, i: usize) -> (r: &String)
        requires
            i < self@.len(),
        ensures
            r@ == self@[i as int].0,
    {
        &self.entries[i].0
    }

    /// The target value of the entry at `i`.
    pub fn value_at(&self, i: usize) -> (r: &String)
        requires
            i < self@.len(),
        ensures
            r@ == self@[i as int].1,
    {
        &self.entries[i].1
    }

    /// Binds `name` to `value`, re-valuing an existing entry in place.
    pub fn insert(&mut self, name: &str, value: &str)
        ensures
            final(self)@ == map_insert(old(self)@, name@, value@),
            old(self).wf() ==> final(self).wf(),
    {
        let n = self.entries.len();
        let mut i: usize = 0;
        while i < n
            invariant
                i <= n,
                n == self@.len(),
                *self == *old(self),
                forall|j: int| 0 <= j < i ==> (#[trigger] self@[j]).0 != name@,
            decreases n - i,
        {
            if str_eq(self.entries[i].0.as_str(), name) {
                let ghost es = self@;
                let e = self.entries.remove(i);
                self.entries.insert(i, (e.0, String::from_str(value)));
                proof {
                    lemma_map_insert_found(es, name@, value@, i as int);
                    assert(self@ =~= es.update(i as int, (name@, value@)));
                    if unique_keys(es) {
                        lemma_map_insert_unique(es, name@, value@);
                    }
                }
                return ;
            }
            i = i + 1;
        }
        let ghost es = self@;
        self.entries.push((String::from_str(name), String::from_str(value)));
        proof {
            lemma_map_insert_absent(es, name@, value@);
            assert(self@ =~= es.push((name@, value@)));
            if unique_keys(es) {
                lemma_map_insert_unique(es, name@, value@);
            }
        }
    }

    /// The value bound to `name`, if any.
    pub fn get(&self, name: &str) -> (r: Option<String>)
        ensures
            match r {
                Some(v) => lookup(self@, name@) == Some(v@),
                None => lookup(self@, name@) is None,
            },
    {
        let n = self.entries.len();
        let mut i: usize = 0;
        proof {
            assert(self@.skip(0) =~= self@);
        }
        while i < n
            invariant
                i <= n,
                n == self@.len(),
                lookup(self@, name@) == lookup(self@.skip(i as int), name@),
            decreases n - i,
        {
            proof {
                let rest = self@.skip(i as int);
                assert(rest[0] == self@[i as int]);
                assert(rest.drop_first() =~= self@.skip(i + 1));
            }
            if str_eq(self.entries[i].0.as_str(), name) {
                return Some(self.entries[i].1.clone());
            }
            i = i + 1;
        }
        proof {
            assert(self@.skip(n as int) =~= Seq::<(Seq<char>, Seq<char>)>::empty());
        }
        None
    }

    /// All target values, in entry order.
    pub fn values(&self) -> (r: Vec<String>)
        ensures
            r.deep_view() == values_of(self@),
    {
        let n = self.entries.len();
        let mut out: Vec<String> = Vec::new();
        let mut i: usize = 0;
        while i < n
            invariant
                i <= n,
                n == self@.len(),
                out.deep_view().len() == i,
                forall|j: int| 0 <= j < i ==> out.deep_view()[j] == (#[trigger] self@[j]).1,
            decreases n - i,
        {
            out.push(self.entries[i].1.clone());
            i = i + 1;
        }
        proof {
            assert(out.deep_view() =~= values_of(self@));
        }
        out
    }
}

} // verus!
