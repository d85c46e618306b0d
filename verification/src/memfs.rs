use vstd::prelude::*;
use vstd::string::*;
use crate::ops::{create_post, rename_post, OpsError, Operation};
use crate::paths::{in_subtree, lemma_rebase_in_subtree, path_in_subtree, rebase, rebase_path, starts_with, str_eq};

verus! {

spec fn fhas(s: Seq<(String, bool)>, k: Seq<char>) -> bool {
    exists|i: int| 0 <= i < s.len() && (#[trigger] s[i]).0@ == k
}

spec fn fat(s: Seq<(String, bool)>, k: Seq<char>) -> int {
    choose|i: int| 0 <= i < s.len() && (#[trigger] s[i]).0@ == k
}

spec fn fs_map(s: Seq<(String, bool)>) -> Map<Seq<char>, bool> {
    Map::new(|k: Seq<char>| fhas(s, k), |k: Seq<char>| s[fat(s, k)].1)
}

spec fn funique(s: Seq<(String, bool)>) -> bool {
    forall|i: int, j: int| 0 <= i < j < s.len() ==> (#[trigger] s[i]).0@ != (#[trigger] s[j]).0@
}

proof fn lemma_fat(s: Seq<(String, bool)>, k: Seq<char>, i: int)
    requires
        funique(s),
        0 <= i < s.len(),
        s[i].0@ == k,
    ensures
        fhas(s, k),
        fat(s, k) == i,
        fs_map(s)[k] == s[i].1,
{
    assert(fhas(s, k));
    let j = fat(s, k);
    assert(0 <= j < s.len() && s[j].0@ == k);
    if i < j {
        assert(s[i].0@ != s[j].0@);
    }
    if j < i {
        assert(s[j].0@ != s[i].0@);
    }
}

/// An in-memory filesystem: a set of path strings, each marked as file or
/// directory. It implements the operation capability with fully verified
/// bodies, for tests and for running the engine against a model.
pub struct MemFs {
    entries: Vec<(String, bool)>,
}

impl MemFs {
    #[verifier::type_invariant]
    spec fn inv(&self) -> bool {
        funique(self.entries@)
    }

    /// An empty filesystem.
    pub fn new() -> (r: MemFs)
        ensures
            r.fs() == Map::<Seq<char>, bool>::empty(),
    {
        let r = MemFs { entries: Vec::new() };
        proof {
            assert(r.fs() =~= Map::<Seq<char>, bool>::empty());
        }
        r
    }

    fn find(&self, path: &str) -> (r: Option<usize>)
        ensures
            match r {
                Some(i) => i < self.entries@.len() && self.entries@[i as int].0@ == path@
                    && self.fs().dom().contains(path@) && self.fs()[path@]
                    == self.entries@[i as int].1,
                None => !self.fs().dom().contains(path@),
            },
    {
        proof {
            use_type_invariant(&*self);
        }
        let mut i: usize = 0;
        while i < self.entries.len()
            invariant
                i <= self.entries@.len(),
                funique(self.entries@),
                forall|j: int| 0 <= j < i ==> (#[trigger] self.entries@[j]).0@ != path@,
            decreases self.entries@.len() - i,
        {
            if str_eq(self.entries[i].0.as_str(), path) {
                proof {
                    lemma_fat(self.entries@, path@, i as int);
                }
                return Some(i);
            }
            i = i + 1;
        }
        proof {
            if fhas(self.entries@, path@) {
                let j = choose|j: int|
                    0 <= j < self.entries@.len() && (#[trigger] self.entries@[j]).0@ == path@;
                assert(self.entries@[j].0@ != path@);
            }
        }
        None
    }

    /// Records `path` with the given kind, replacing any previous entry.
    fn set_entry(&mut self, path: &String, dir: bool)
        ensures
            final(self).fs() == old(self).fs().insert(path@, dir),
    {
        proof {
            use_type_invariant(&*self);
        }
        let found = self.find(path.as_str());
        let ghost s0 = self.entries@;
        let mut es: Vec<(String, bool)> = Vec::new();
        core::mem::swap(&mut es, &mut self.entries);
        match found {
            Some(i) => {
                es[i] = (path.clone(), dir);
            },
            None => {
                es.push((path.clone(), dir));
            },
        }
        proof {
            let s1 = es@;
            let idx: int = match found {
                Some(i) => i as int,
                None => s1.len() - 1,
            };
            assert(forall|j: int|
                0 <= j < s0.len() && j != idx ==> (#[trigger] s1[j]) == s0[j]);
            assert(s1[idx].0@ == path@ && s1[idx].1 == dir);
            assert(funique(s1)) by {
                assert forall|a: int, b: int| 0 <= a < b < s1.len() implies (#[trigger] s1[a]).0@
                    != (#[trigger] s1[b]).0@ by {
                    match found {
                        Some(i) => {
                            if a == i as int || b == i as int {
                                if a == i as int {
                                    assert(s1[b] == s0[b]);
                                    if s0[b].0@ == path@ {
                                        lemma_fat(s0, path@, b);
                                        lemma_fat(s0, path@, i as int);
                                    }
                                } else {
                                    assert(s1[a] == s0[a]);
                                    if s0[a].0@ == path@ {
                                        lemma_fat(s0, path@, a);
                                        lemma_fat(s0, path@, i as int);
                                    }
                                }
                            } else {
                                assert(s1[a] == s0[a] && s1[b] == s0[b]);
                            }
                        },
                        None => {
                            if b == s1.len() - 1 {
                                assert(s1[a] == s0[a]);
                                if s0[a].0@ == path@ {
                                    assert(fhas(s0, path@));
                                }
                            } else {
                                assert(s1[a] == s0[a] && s1[b] == s0[b]);
                            }
                        },
                    }
                }
            }
            assert forall|x: Seq<char>|
                fs_map(s1).dom().contains(x) <==> fs_map(s0).insert(path@, dir).dom().contains(
                    x,
                ) by {
                if fhas(s1, x) {
                    let j = choose|j: int| 0 <= j < s1.len() && (#[trigger] s1[j]).0@ == x;
                    if j < s0.len() && j != (match found {
                        Some(i) => i as int,
                        None => s1.len() as int,
                    }) {
                        assert(s0[j].0@ == x);
                    }
                }
                if fhas(s0, x) && x != path@ {
                    let j = choose|j: int| 0 <= j < s0.len() && (#[trigger] s0[j]).0@ == x;
                    assert(s1[j].0@ == x);
                }
                if x == path@ {
                    match found {
                        Some(i) => {
                            assert(s1[i as int].0@ == x);
                        },
                        None => {
                            assert(s1[s1.len() - 1].0@ == x);
                        },
                    }
                }
            }
            assert forall|x: Seq<char>| fs_map(s1).dom().contains(x) implies fs_map(s1)[x]
                == fs_map(s0).insert(path@, dir)[x] by {
                let j = choose|j: int| 0 <= j < s1.len() && (#[trigger] s1[j]).0@ == x;
                lemma_fat(s1, x, j);
                if x == path@ {
                    match found {
                        Some(i) => {
                            lemma_fat(s1, x, i as int);
                        },
                        None => {
                            lemma_fat(s1, x, s1.len() - 1);
                        },
                    }
                } else {
                    assert(s1[j] == s0[j]);
                    lemma_fat(s0, x, j);
                }
            }
            assert(fs_map(s1) =~= fs_map(s0).insert(path@, dir));
        }
        self.entries = es;
    }

    /// Records a file at `path`.
    pub fn add_file(&mut self, path: &String)
        ensures
            final(self).fs() == old(self).fs().insert(path@, false),
    {
        self.set_entry(path, false);
    }

    /// Records a directory at `path`.
    pub fn add_dir(&mut self, path: &String)
        ensures
            final(self).fs() == old(self).fs().insert(path@, true),
    {
        self.set_entry(path, true);
    }

    /// Whether a file (not a directory) lies at `path`; for inspection in
    /// tests.
    pub fn has_file(&self, path: &String) -> (r: bool)
        ensures
            r == (self.fs().dom().contains(path@) && !self.fs()[path@]),
    {
        match self.find(path.as_str()) {
            Some(i) => !self.entries[i].1,
            None => false,
        }
    }

    /// Whether anything lies at `path`; for inspection in tests.
    pub fn has_path(&self, path: &String) -> (r: bool)
        ensures
            r == self.fs().dom().contains(path@),
    {
        match self.find(path.as_str()) {
            Some(_) => true,
            None => false,
        }
    }
}

proof fn lemma_rebase_injective(k1: Seq<char>, k2: Seq<char>, from: Seq<char>, to: Seq<char>)
    requires
        in_subtree(k1, from),
        in_subtree(k2, from),
        rebase(k1, from, to) == rebase(k2, from, to),
    ensures
        k1 == k2,
{
    assert((to + k1.skip(from.len() as int)).skip(to.len() as int) =~= k1.skip(
        from.len() as int,
    ));
    assert((to + k2.skip(from.len() as int)).skip(to.len() as int) =~= k2.skip(
        from.len() as int,
    ));
    assert(k1.take(from.len() as int) =~= k2.take(from.len() as int));
    assert(k1 =~= k1.take(from.len() as int) + k1.skip(from.len() as int));
    assert(k2 =~= k2.take(from.len() as int) + k2.skip(from.len() as int));
}

impl Operation for MemFs {
    closed spec fn fs(&self) -> Map<Seq<char>, bool> {
        fs_map(self.entries@)
    }

    fn path_exists(&self, path: &String) -> (r: bool) {
        match self.find(path.as_str()) {
            Some(_) => true,
            None => false,
        }
    }

    fn is_dir(&self, path: &String) -> (r: bool) {
        match self.find(path.as_str()) {
            Some(i) => self.entries[i].1,
            None => false,
        }
    }

    fn rename(&mut self, from: &String, to: &String) -> (r: Result<(), OpsError>) {
        proof {
            use_type_invariant(&*self);
        }
        match self.find(from.as_str()) {
            Some(_) => {
            },
            None => {
                proof {
                    reveal_strlit("source does not exist");
                }
                return Err(
                    OpsError::FailRename {
                        from: from.clone(),
                        to: to.clone(),
                        msg: String::from_str("source does not exist"),
                    },
                );
            },
        }
        if path_in_subtree(to.as_str(), from.as_str()) {
            proof {
                reveal_strlit("target lies under the source");
            }
            return Err(
                OpsError::FailRename {
                    from: from.clone(),
                    to: to.clone(),
                    msg: String::from_str("target lies under the source"),
                },
            );
        }
        let mut i: usize = 0;
        while i < self.entries.len()
            invariant
                i <= self.entries@.len(),
                funique(self.entries@),
                forall|j: int|
                    0 <= j < i ==> !(!in_subtree((#[trigger] self.entries@[j]).0@, from@)
                        && in_subtree(self.entries@[j].0@, to@)),
            decreases self.entries@.len() - i,
        {
            let under_from = path_in_subtree(self.entries[i].0.as_str(), from.as_str());
            let under_to = path_in_subtree(self.entries[i].0.as_str(), to.as_str());
            if !under_from && under_to {
                proof {
                    reveal_strlit("target already occupied");
                }
                return Err(
                    OpsError::FailRename {
                        from: from.clone(),
                        to: to.clone(),
                        msg: String::from_str("target already occupied"),
                    },
                );
            }
            i = i + 1;
        }
        let ghost s0 = self.entries@;
        let from_len = from.as_str().unicode_len();
        let mut es: Vec<(String, bool)> = Vec::new();
        core::mem::swap(&mut es, &mut self.entries);
        let mut i: usize = 0;
        while i < es.len()
            invariant
                i <= es@.len(),
                es@.len() == s0.len(),
                funique(s0),
                from_len == from@.len(),
                !in_subtree(to@, from@),
                forall|j: int|
                    0 <= j < s0.len() ==> !(!in_subtree((#[trigger] s0[j]).0@, from@)
                        && in_subtree(s0[j].0@, to@)),
                forall|j: int| i <= j < es@.len() ==> (#[trigger] es@[j]) == s0[j],
                forall|j: int|
                    0 <= j < i ==> ((#[trigger] es@[j]).1 == s0[j].1 && es@[j].0@ == (
                    if in_subtree(s0[j].0@, from@) {
                        rebase(s0[j].0@, from@, to@)
                    } else {
                        s0[j].0@
                    })),
            decreases es@.len() - i,
        {
            if path_in_subtree(es[i].0.as_str(), from.as_str()) {
                let d = es[i].1;
                let nk = rebase_path(es[i].0.as_str(), from_len, to);
                proof {
                    assert(in_subtree(es@[i as int].0@, from@));
                    assert(es@[i as int].0@.take(from_len as int) =~= from@);
                }
                es[i] = (nk, d);
            }
            i = i + 1;
        }
        proof {
            let s1 = es@;
            assert(funique(s1)) by {
                assert forall|a: int, b: int| 0 <= a < b < s1.len() implies (#[trigger] s1[a]).0@
                    != (#[trigger] s1[b]).0@ by {
                    let ka = s0[a].0@;
                    let kb = s0[b].0@;
                    if in_subtree(ka, from@) && in_subtree(kb, from@) {
                        if s1[a].0@ == s1[b].0@ {
                            lemma_rebase_injective(ka, kb, from@, to@);
                        }
                    } else if in_subtree(ka, from@) && !in_subtree(kb, from@) {
                        lemma_rebase_in_subtree(ka, from@, to@);
                    } else if !in_subtree(ka, from@) && in_subtree(kb, from@) {
                        lemma_rebase_in_subtree(kb, from@, to@);
                    }
                }
            }
            assert forall|k: Seq<char>|
                #[trigger] fs_map(s0).dom().contains(k) && !in_subtree(k, from@) && !in_subtree(
                    k,
                    to@,
                ) implies fs_map(s1).dom().contains(k) && fs_map(s1)[k] == fs_map(s0)[k] by {
                let j = fat(s0, k);
                assert(s1[j].0@ == k);
                lemma_fat(s1, k, j);
                lemma_fat(s0, k, j);
            }
            assert forall|k: Seq<char>|
                #[trigger] fs_map(s0).dom().contains(k) && in_subtree(k, from@) implies fs_map(
                s1,
            ).dom().contains(rebase(k, from@, to@)) && fs_map(s1)[rebase(k, from@, to@)] == fs_map(
                s0,
            )[k] by {
                let j = fat(s0, k);
                assert(s1[j].0@ == rebase(k, from@, to@));
                lemma_fat(s1, rebase(k, from@, to@), j);
                lemma_fat(s0, k, j);
            }
            assert forall|k: Seq<char>| in_subtree(k, from@) && !in_subtree(k, to@) implies !(
            #[trigger] fs_map(s1).dom().contains(k)) by {
                if fhas(s1, k) {
                    let j = choose|j: int| 0 <= j < s1.len() && (#[trigger] s1[j]).0@ == k;
                    if in_subtree(s0[j].0@, from@) {
                        lemma_rebase_in_subtree(s0[j].0@, from@, to@);
                    } else {
                        assert(s1[j].0@ == s0[j].0@);
                    }
                }
            }
            assert forall|k: Seq<char>| #[trigger] fs_map(s1).dom().contains(k) implies ((fs_map(
                s0,
            ).dom().contains(k) && !in_subtree(k, from@) && !in_subtree(k, to@)) || (exists|
                p: Seq<char>,
            |
                #[trigger] fs_map(s0).dom().contains(p) && in_subtree(p, from@) && k == rebase(
                    p,
                    from@,
                    to@,
                ))) by {
                let j = choose|j: int| 0 <= j < s1.len() && (#[trigger] s1[j]).0@ == k;
                let p = s0[j].0@;
                lemma_fat(s0, p, j);
                if in_subtree(p, from@) {
                    assert(fs_map(s0).dom().contains(p) && in_subtree(p, from@) && k == rebase(
                        p,
                        from@,
                        to@,
                    ));
                } else {
                    assert(s1[j].0@ == p);
                }
            }
            assert(rename_post(fs_map(s0), fs_map(s1), from@, to@));
        }
        self.entries = es;
        Ok(())
    }

    fn copy(&mut self, from: &String, to: &String) -> (r: Result<(), OpsError>) {
        proof {
            use_type_invariant(&*self);
        }
        let src_ok: bool = match self.find(from.as_str()) {
            Some(i) => !self.entries[i].1,
            None => false,
        };
        if !src_ok {
            proof {
                reveal_strlit("source is not a file");
            }
            return Err(
                OpsError::FailCopy {
                    from: from.clone(),
                    to: to.clone(),
                    msg: String::from_str("source is not a file"),
                },
            );
        }
        let dst_dir: bool = match self.find(to.as_str()) {
            Some(i) => self.entries[i].1,
            None => false,
        };
        if dst_dir {
            proof {
                reveal_strlit("target is a directory");
            }
            return Err(
                OpsError::FailCopy {
                    from: from.clone(),
                    to: to.clone(),
                    msg: String::from_str("target is a directory"),
                },
            );
        }
        self.set_entry(to, false);
        Ok(())
    }

    fn create_dir_all(&mut self, path: &String) -> (r: Result<(), OpsError>) {
        proof {
            use_type_invariant(&*self);
        }
        match self.find(path.as_str()) {
            Some(i) => {
                if self.entries[i].1 {
                    proof {
                        assert(create_post(self.fs(), self.fs(), path@));
                    }
                    Ok(())
                } else {
                    proof {
                        reveal_strlit("a file stands in the way");
                    }
                    Err(OpsError::Io(String::from_str("a file stands in the way")))
                }
            },
            None => {
                let ghost m0 = self.fs();
                self.set_entry(path, true);
                proof {
                    assert(starts_with(path@, path@)) by {
                        assert(path@.take(path@.len() as int) =~= path@);
                    }
                    assert(create_post(m0, self.fs(), path@));
                }
                Ok(())
            },
        }
    }
}

} // verus!
