use vstd::prelude::*;
use crate::paths::{starts_with, rebase, str_starts_with, rebase_path, str_eq};

verus! {

/// Every pending entry whose path equals `from` is repointed at `to`;
/// this is how a displaced occupant keeps its identity.
pub open spec fn map_replace_value(
    m: Map<usize, Seq<char>>,
    from: Seq<char>,
    to: Seq<char>,
) -> Map<usize, Seq<char>> {
    Map::new(
        |k: usize| m.dom().contains(k),
        |k: usize|
            if m[k] == from {
                to
            } else {
                m[k]
            },
    )
}

/// Every pending entry whose path starts with `from` has that prefix
/// replaced by `to`; this is the directory cascade.
pub open spec fn map_rewrite_prefix(
    m: Map<usize, Seq<char>>,
    from: Seq<char>,
    to: Seq<char>,
) -> Map<usize, Seq<char>> {
    Map::new(
        |k: usize| m.dom().contains(k),
        |k: usize|
            if starts_with(m[k], from) {
                rebase(m[k], from, to)
            } else {
                m[k]
            },
    )
}

spec fn has_key(s: Seq<(usize, String)>, k: usize) -> bool {
    exists|i: int| 0 <= i < s.len() && (#[trigger] s[i]).0 == k
}

spec fn key_at(s: Seq<(usize, String)>, k: usize) -> int {
    choose|i: int| 0 <= i < s.len() && (#[trigger] s[i]).0 == k
}

spec fn entries_map(s: Seq<(usize, String)>) -> Map<usize, Seq<char>> {
    Map::new(|k: usize| has_key(s, k), |k: usize| s[key_at(s, k)].1@)
}

spec fn unique_keys(s: Seq<(usize, String)>) -> bool {
    forall|i: int, j: int|
        0 <= i < j < s.len() ==> (#[trigger] s[i]).0 != (#[trigger] s[j]).0
}

proof fn lemma_key_at(s: Seq<(usize, String)>, k: usize, i: int)
    requires
        unique_keys(s),
        0 <= i < s.len(),
        s[i].0 == k,
    ensures
        has_key(s, k),
        key_at(s, k) == i,
        entries_map(s)[k] == s[i].1@,
{
    assert(has_key(s, k));
    let j = key_at(s, k);
    assert(0 <= j < s.len() && s[j].0 == k);
    if i != j {
        if i < j {
            assert(s[i].0 != s[j].0);
        } else {
            assert(s[j].0 != s[i].0);
        }
    }
}

proof fn lemma_unique_dom_len(s: Seq<(usize, String)>)
    requires
        unique_keys(s),
    ensures
        entries_map(s).dom().finite(),
        entries_map(s).dom().len() == s.len(),
    decreases s.len(),
{
    if s.len() == 0 {
        assert(entries_map(s).dom() =~= Set::<usize>::empty());
    } else {
        let t = s.drop_last();
        assert(unique_keys(t));
        lemma_unique_dom_len(t);
        let k = s.last().0;
        assert(forall|j: int| 0 <= j < t.len() ==> (#[trigger] t[j]) == s[j]);
        assert forall|x: usize| has_key(s, x) <==> (has_key(t, x) || x == k) by {
            if has_key(s, x) {
                let i = choose|i: int| 0 <= i < s.len() && (#[trigger] s[i]).0 == x;
                if i < s.len() - 1 {
                    assert(t[i].0 == x);
                    assert(has_key(t, x));
                }
            }
            if has_key(t, x) {
                let i = choose|i: int| 0 <= i < t.len() && (#[trigger] t[i]).0 == x;
                assert(s[i].0 == x);
                assert(has_key(s, x));
            }
            if x == k {
                assert(s[s.len() - 1].0 == x);
                assert(has_key(s, x));
            }
        }
        assert(!has_key(t, k)) by {
            if has_key(t, k) {
                let i = choose|i: int| 0 <= i < t.len() && (#[trigger] t[i]).0 == k;
                assert(s[i].0 == s[s.len() - 1].0);
            }
        }
        assert(entries_map(s).dom() =~= entries_map(t).dom().insert(k));
    }
}

/// A map from item identifiers to path strings; each identifier is
/// present at most once.
pub struct IdMap {
    entries: Vec<(usize, String)>,
}

impl View for IdMap {
    type V = Map<usize, Seq<char>>;

    closed spec fn view(&self) -> Map<usize, Seq<char>> {
        entries_map(self.entries@)
    }
}

impl IdMap {
    #[verifier::type_invariant]
    spec fn inv(&self) -> bool {
        unique_keys(self.entries@)
    }

    pub fn new() -> (r: IdMap)
        ensures
            r@ == Map::<usize, Seq<char>>::empty(),
    {
        let r = IdMap { entries: Vec::new() };
        proof {
            assert(r@ =~= Map::<usize, Seq<char>>::empty());
        }
        r
    }

    fn find(&self, k: usize) -> (r: Option<usize>)
        ensures
            match r {
                Some(i) => i < self.entries@.len() && self.entries@[i as int].0 == k
                    && self@.dom().contains(k) && self@[k] == self.entries@[i as int].1@,
                None => !self@.dom().contains(k),
            },
    {
        proof {
            use_type_invariant(&*self);
        }
        let mut i: usize = 0;
        while i < self.entries.len()
            invariant
                i <= self.entries@.len(),
                unique_keys(self.entries@),
                forall|j: int| 0 <= j < i ==> (#[trigger] self.entries@[j]).0 != k,
            decreases self.entries@.len() - i,
        {
            if self.entries[i].0 == k {
                proof {
                    lemma_key_at(self.entries@, k, i as int);
                }
                return Some(i);
            }
            i = i + 1;
        }
        proof {
            if has_key(self.entries@, k) {
                let j = choose|j: int|
                    0 <= j < self.entries@.len() && (#[trigger] self.entries@[j]).0 == k;
                assert(self.entries@[j].0 != k);
            }
        }
        None
    }

    pub fn contains_key(&self, k: usize) -> (r: bool)
        ensures
            r == self@.dom().contains(k),
    {
        match self.find(k) {
            Some(_) => true,
            None => false,
        }
    }

    pub fn get(&self, k: usize) -> (r: Option<&String>)
        ensures
            match r {
                Some(s) => self@.dom().contains(k) && s@ == self@[k],
                None => !self@.dom().contains(k),
            },
    {
        match self.find(k) {
            Some(i) => Some(&self.entries[i].1),
            None => None,
        }
    }

    pub fn len(&self) -> (r: usize)
        ensures
            r == self@.dom().len(),
    {
        proof {
            use_type_invariant(&*self);
            lemma_unique_dom_len(self.entries@);
        }
        self.entries.len()
    }

    pub fn is_empty(&self) -> (r: bool)
        ensures
            r == (self@.dom().len() == 0),
    {
        self.len() == 0
    }

    pub fn insert(&mut self, k: usize, v: String)
        ensures
            final(self)@ == old(self)@.insert(k, v@),
    {
        proof {
            use_type_invariant(&*self);
        }
        let found = self.find(k);
        let ghost s0 = self.entries@;
        let mut es: Vec<(usize, String)> = Vec::new();
        core::mem::swap(&mut es, &mut self.entries);
        match found {
            Some(i) => {
                es[i] = (k, v);
                proof {
                    let s1 = es@;
                    assert(forall|j: int|
                        0 <= j < s1.len() ==> (#[trigger] s1[j]).0 == s0[j].0);
                    assert(unique_keys(s1));
                    assert forall|x: usize|
                        entries_map(s1).dom().contains(x)
                            <==> entries_map(s0).insert(k, v@).dom().contains(x) by {
                        if has_key(s1, x) {
                            let j = choose|j: int|
                                0 <= j < s1.len() && (#[trigger] s1[j]).0 == x;
                            assert(s0[j].0 == x);
                        }
                        if has_key(s0, x) {
                            let j = choose|j: int|
                                0 <= j < s0.len() && (#[trigger] s0[j]).0 == x;
                            assert(s1[j].0 == x);
                        }
                        if x == k {
                            assert(s1[i as int].0 == x);
                        }
                    }
                    assert forall|x: usize| entries_map(s1).dom().contains(x)
                        implies entries_map(s1)[x] == entries_map(s0).insert(k, v@)[x] by {
                        let j = choose|j: int| 0 <= j < s1.len() && (#[trigger] s1[j]).0 == x;
                        lemma_key_at(s1, x, j);
                        if x == k {
                            lemma_key_at(s1, x, i as int);
                            assert(entries_map(s1)[x] == v@);
                        } else {
                            assert(s0[j].0 == x);
                            lemma_key_at(s0, x, j);
                            assert(s1[j] == s0[j]);
                        }
                    }
                    assert(entries_map(s1) =~= entries_map(s0).insert(k, v@));
                }
            },
            None => {
                es.push((k, v));
                proof {
                    let s1 = es@;
                    assert(s1 == s0.push((k, v)));
                    assert(forall|j: int| 0 <= j < s0.len() ==> s1[j] == s0[j]);
                    assert(unique_keys(s1)) by {
                        assert forall|a: int, b: int| 0 <= a < b < s1.len()
                            implies (#[trigger] s1[a]).0 != (#[trigger] s1[b]).0 by {
                            if b == s1.len() - 1 {
                                assert(s0[a].0 != k) by {
                                    if s0[a].0 == k {
                                        lemma_key_at(s0, k, a);
                                    }
                                }
                            } else {
                                assert(s0[a].0 != s0[b].0);
                            }
                        }
                    }
                    assert forall|x: usize|
                        entries_map(s1).dom().contains(x)
                            <==> entries_map(s0).insert(k, v@).dom().contains(x) by {
                        if has_key(s1, x) {
                            let j = choose|j: int|
                                0 <= j < s1.len() && (#[trigger] s1[j]).0 == x;
                            if j < s0.len() {
                                assert(s0[j].0 == x);
                            }
                        }
                        if has_key(s0, x) {
                            let j = choose|j: int|
                                0 <= j < s0.len() && (#[trigger] s0[j]).0 == x;
                            assert(s1[j].0 == x);
                        }
                        if x == k {
                            assert(s1[s1.len() - 1].0 == x);
                        }
                    }
                    assert forall|x: usize| entries_map(s1).dom().contains(x)
                        implies entries_map(s1)[x] == entries_map(s0).insert(k, v@)[x] by {
                        let j = choose|j: int| 0 <= j < s1.len() && (#[trigger] s1[j]).0 == x;
                        lemma_key_at(s1, x, j);
                        if x == k {
                            lemma_key_at(s1, x, s1.len() - 1);
                        } else {
                            assert(j < s0.len());
                            assert(s0[j].0 == x);
                            lemma_key_at(s0, x, j);
                        }
                    }
                    assert(entries_map(s1) =~= entries_map(s0).insert(k, v@));
                }
            },
        }
        self.entries = es;
    }

    pub fn remove(&mut self, k: usize)
        ensures
            final(self)@ == old(self)@.remove(k),
    {
        proof {
            use_type_invariant(&*self);
        }
        let found = self.find(k);
        let ghost s0 = self.entries@;
        match found {
            Some(i) => {
                let mut es: Vec<(usize, String)> = Vec::new();
                core::mem::swap(&mut es, &mut self.entries);
                es.remove(i);
                proof {
                    let s1 = es@;
                    assert(s1 == s0.remove(i as int));
                    assert(forall|j: int| 0 <= j < i ==> s1[j] == s0[j]);
                    assert(forall|j: int| i <= j < s1.len() ==> s1[j] == s0[j + 1]);
                    assert(unique_keys(s1)) by {
                        assert forall|a: int, b: int| 0 <= a < b < s1.len()
                            implies (#[trigger] s1[a]).0 != (#[trigger] s1[b]).0 by {
                            let a0: int = if a < i { a } else { a + 1 };
                            let b0: int = if b < i { b } else { b + 1 };
                            assert(s1[a] == s0[a0]);
                            assert(s1[b] == s0[b0]);
                            assert(s0[a0].0 != s0[b0].0);
                        }
                    }
                    assert forall|x: usize|
                        entries_map(s1).dom().contains(x)
                            <==> entries_map(s0).remove(k).dom().contains(x) by {
                        if has_key(s1, x) {
                            let j = choose|j: int|
                                0 <= j < s1.len() && (#[trigger] s1[j]).0 == x;
                            let j0: int = if j < i { j } else { j + 1 };
                            assert(s0[j0].0 == x);
                            assert(x != k) by {
                                if x == k {
                                    lemma_key_at(s0, k, j0);
                                    lemma_key_at(s0, k, i as int);
                                }
                            }
                        }
                        if has_key(s0, x) && x != k {
                            let j = choose|j: int|
                                0 <= j < s0.len() && (#[trigger] s0[j]).0 == x;
                            assert(j != i);
                            if j < i {
                                assert(s1[j].0 == x);
                            } else {
                                assert(s1[j - 1].0 == x);
                            }
                        }
                    }
                    assert forall|x: usize| entries_map(s1).dom().contains(x)
                        implies entries_map(s1)[x] == entries_map(s0).remove(k)[x] by {
                        let j = choose|j: int| 0 <= j < s1.len() && (#[trigger] s1[j]).0 == x;
                        lemma_key_at(s1, x, j);
                        let j0: int = if j < i { j } else { j + 1 };
                        assert(s1[j] == s0[j0]);
                        lemma_key_at(s0, x, j0);
                    }
                    assert(entries_map(s1) =~= entries_map(s0).remove(k));
                }
                self.entries = es;
            },
            None => {
                proof {
                    assert(entries_map(s0) =~= entries_map(s0).remove(k));
                }
            },
        }
    }

    /// Repoints every entry whose path equals `from` at `to`.
    pub fn replace_values(&mut self, from: &String, to: &String)
        ensures
            final(self)@ == map_replace_value(old(self)@, from@, to@),
    {
        proof {
            use_type_invariant(&*self);
        }
        let ghost s0 = self.entries@;
        let mut es: Vec<(usize, String)> = Vec::new();
        core::mem::swap(&mut es, &mut self.entries);
        let mut i: usize = 0;
        while i < es.len()
            invariant
                i <= es@.len(),
                es@.len() == s0.len(),
                unique_keys(s0),
                forall|j: int| 0 <= j < es@.len() ==> (#[trigger] es@[j]).0 == s0[j].0,
                forall|j: int| i <= j < es@.len() ==> (#[trigger] es@[j]).1 == s0[j].1,
                forall|j: int|
                    0 <= j < i ==> (#[trigger] es@[j]).1@ == (if s0[j].1@ == from@ {
                        to@
                    } else {
                        s0[j].1@
                    }),
            decreases es@.len() - i,
        {
            if str_eq(es[i].1.as_str(), from.as_str()) {
                let k = es[i].0;
                es[i] = (k, to.clone());
            }
            i = i + 1;
        }
        proof {
            let s1 = es@;
            assert(unique_keys(s1));
            assert forall|x: usize|
                entries_map(s1).dom().contains(x) <==> entries_map(s0).dom().contains(x) by {
                if has_key(s1, x) {
                    let j = choose|j: int| 0 <= j < s1.len() && (#[trigger] s1[j]).0 == x;
                    assert(s0[j].0 == x);
                }
                if has_key(s0, x) {
                    let j = choose|j: int| 0 <= j < s0.len() && (#[trigger] s0[j]).0 == x;
                    assert(s1[j].0 == x);
                }
            }
            assert forall|x: usize| entries_map(s1).dom().contains(x)
                implies entries_map(s1)[x] == map_replace_value(entries_map(s0), from@, to@)[x] by {
                let j = choose|j: int| 0 <= j < s1.len() && (#[trigger] s1[j]).0 == x;
                lemma_key_at(s1, x, j);
                assert(s0[j].0 == x);
                lemma_key_at(s0, x, j);
            }
            assert(entries_map(s1) =~= map_replace_value(entries_map(s0), from@, to@));
        }
        self.entries = es;
    }

    /// Rewrites every entry whose path starts with `from`, replacing that
    /// prefix with `to`.
    pub fn rewrite_prefix(&mut self, from: &String, to: &String)
        ensures
            final(self)@ == map_rewrite_prefix(old(self)@, from@, to@),
    {
        proof {
            use_type_invariant(&*self);
        }
        let ghost s0 = self.entries@;
        let mut es: Vec<(usize, String)> = Vec::new();
        core::mem::swap(&mut es, &mut self.entries);
        let from_len = from.as_str().unicode_len();
        let mut i: usize = 0;
        while i < es.len()
            invariant
                i <= es@.len(),
                es@.len() == s0.len(),
                unique_keys(s0),
                from_len == from@.len(),
                forall|j: int| 0 <= j < es@.len() ==> (#[trigger] es@[j]).0 == s0[j].0,
                forall|j: int| i <= j < es@.len() ==> (#[trigger] es@[j]).1 == s0[j].1,
                forall|j: int|
                    0 <= j < i ==> (#[trigger] es@[j]).1@ == (if starts_with(s0[j].1@, from@) {
                        rebase(s0[j].1@, from@, to@)
                    } else {
                        s0[j].1@
                    }),
            decreases es@.len() - i,
        {
            if str_starts_with(es[i].1.as_str(), from.as_str()) {
                let k = es[i].0;
                let nv = rebase_path(es[i].1.as_str(), from_len, to);
                proof {
                    assert(s0[i as int].1@.take(from_len as int) == from@);
                }
                es[i] = (k, nv);
            }
            i = i + 1;
        }
        proof {
            let s1 = es@;
            assert(unique_keys(s1));
            assert forall|x: usize|
                entries_map(s1).dom().contains(x) <==> entries_map(s0).dom().contains(x) by {
                if has_key(s1, x) {
                    let j = choose|j: int| 0 <= j < s1.len() && (#[trigger] s1[j]).0 == x;
                    assert(s0[j].0 == x);
                }
                if has_key(s0, x) {
                    let j = choose|j: int| 0 <= j < s0.len() && (#[trigger] s0[j]).0 == x;
                    assert(s1[j].0 == x);
                }
            }
            assert forall|x: usize| entries_map(s1).dom().contains(x)
                implies entries_map(s1)[x] == map_rewrite_prefix(entries_map(s0), from@, to@)[x] by {
                let j = choose|j: int| 0 <= j < s1.len() && (#[trigger] s1[j]).0 == x;
                lemma_key_at(s1, x, j);
                assert(s0[j].0 == x);
                lemma_key_at(s0, x, j);
            }
            assert(entries_map(s1) =~= map_rewrite_prefix(entries_map(s0), from@, to@));
        }
        self.entries = es;
    }
}

} // verus!
