use vstd::prelude::*;
use vstd::string::*;
use crate::editor::ParsedLine;
use crate::idmap::{map_replace_value, map_rewrite_prefix, IdMap};
use crate::numtext::{dec_digits, lemma_dec_digits_value, usize_to_string};
use crate::paths::{
    in_subtree, lemma_rebase_in_subtree, lemma_subtree_roots, parent_of, parent_spec, rebase,
    starts_with, str_eq,
};

verus! {

/// Failures the resolution engine reports for a single edit.
#[derive(Debug, PartialEq)]
pub enum OpsError {
    /// The edit names an identifier that is neither pending nor resolved.
    UnknownNumber(usize),
    /// The edit's source path is gone from the filesystem; the stale
    /// pending entry is evicted when this is reported.
    NotFound(String),
    /// The operation capability failed to rename `from` to `to`.
    FailRename { from: String, to: String, msg: String },
    /// The operation capability failed to copy `from` to `to`.
    FailCopy { from: String, to: String, msg: String },
    /// Another filesystem failure, such as directory creation.
    Io(String),
}

/// The human-readable description of an engine failure.
pub open spec fn spec_message(e: OpsError) -> Seq<char> {
    match e {
        OpsError::UnknownNumber(n) => "unknown item number "@ + dec_digits(n as nat),
        OpsError::NotFound(p) => p@ + " does not exist"@,
        OpsError::FailRename { from, to, msg } => "failed to rename "@ + from@ + " to "@ + to@
            + ": "@ + msg@,
        OpsError::FailCopy { from, to, msg } => "failed to copy "@ + from@ + " to "@ + to@ + ": "@
            + msg@,
        OpsError::Io(m) => m@,
    }
}

impl OpsError {
    /// Renders the failure for display.
    pub fn message(&self) -> (r: String)
        ensures
            r@ == spec_message(*self),
    {
        match self {
            OpsError::UnknownNumber(k) => {
                proof {
                    reveal_strlit("unknown item number ");
                }
                let mut s = String::from_str("unknown item number ");
                let ks = usize_to_string(*k);
                s.append(ks.as_str());
                s
            },
            OpsError::NotFound(p) => {
                proof {
                    reveal_strlit(" does not exist");
                }
                let mut s = p.clone();
                s.append(" does not exist");
                s
            },
            OpsError::FailRename { from, to, msg } => {
                proof {
                    reveal_strlit("failed to rename ");
                    reveal_strlit(" to ");
                    reveal_strlit(": ");
                }
                let mut s = String::from_str("failed to rename ");
                s.append(from.as_str());
                s.append(" to ");
                s.append(to.as_str());
                s.append(": ");
                s.append(msg.as_str());
                s
            },
            OpsError::FailCopy { from, to, msg } => {
                proof {
                    reveal_strlit("failed to copy ");
                    reveal_strlit(" to ");
                    reveal_strlit(": ");
                }
                let mut s = String::from_str("failed to copy ");
                s.append(from.as_str());
                s.append(" to ");
                s.append(to.as_str());
                s.append(": ");
                s.append(msg.as_str());
                s
            },
            OpsError::Io(m) => m.clone(),
        }
    }
}

/// What a successful rename does to the filesystem view: entries at or
/// below `from` move to the corresponding names at or below `to`; entries
/// elsewhere stay; nothing else appears.
pub open spec fn rename_post(
    m0: Map<Seq<char>, bool>,
    m1: Map<Seq<char>, bool>,
    from: Seq<char>,
    to: Seq<char>,
) -> bool {
    &&& forall|k: Seq<char>|
        #[trigger] m0.dom().contains(k) && !in_subtree(k, from) && !in_subtree(k, to)
            ==> m1.dom().contains(k) && m1[k] == m0[k]
    &&& forall|k: Seq<char>|
        #[trigger] m0.dom().contains(k) && in_subtree(k, from) ==> m1.dom().contains(
            rebase(k, from, to),
        ) && m1[rebase(k, from, to)] == m0[k]
    &&& forall|k: Seq<char>|
        in_subtree(k, from) && !in_subtree(k, to) ==> !(#[trigger] m1.dom().contains(k))
    &&& forall|k: Seq<char>|
        #[trigger] m1.dom().contains(k) ==> ((m0.dom().contains(k) && !in_subtree(k, from)
            && !in_subtree(k, to)) || (exists|p: Seq<char>|
            #[trigger] m0.dom().contains(p) && in_subtree(p, from) && k == rebase(p, from, to)))
}

/// What a successful directory creation does to the filesystem view:
/// everything present stays as it was, the path is now a directory, and
/// anything new is a directory on the way to it.
pub open spec fn create_post(
    m0: Map<Seq<char>, bool>,
    m1: Map<Seq<char>, bool>,
    path: Seq<char>,
) -> bool {
    &&& forall|k: Seq<char>|
        #[trigger] m0.dom().contains(k) ==> m1.dom().contains(k) && m1[k] == m0[k]
    &&& m1.dom().contains(path) && m1[path]
    &&& forall|k: Seq<char>|
        #[trigger] m1.dom().contains(k) && !m0.dom().contains(k) ==> m1[k] && starts_with(path, k)
}

/// The filesystem capability the engine acts through. Its contracts speak
/// of `fs()`, the capability's view of which paths exist and which of them
/// are directories. The engine is verified against these contracts for any
/// implementation; an in-memory implementation lives in this crate, and a
/// native one may be supplied from outside.
pub trait Operation: Sized {
    /// The capability's view of the filesystem: each existing path, mapped
    /// to whether it is a directory. A native capability leaves this at
    /// its default, an unspecified view; a modelled one overrides it with
    /// its actual contents.
    open spec fn fs(&self) -> Map<Seq<char>, bool> {
        arbitrary()
    }

    /// Whether the path currently exists.
    fn path_exists(&self, path: &String) -> (r: bool)
        ensures
            r == self.fs().dom().contains(path@),
    ;

    /// Whether the path currently names a directory.
    fn is_dir(&self, path: &String) -> (r: bool)
        ensures
            r == (self.fs().dom().contains(path@) && self.fs()[path@]),
    ;

    /// Moves `from` to `to`, carrying everything below a directory along.
    fn rename(&mut self, from: &String, to: &String) -> (r: Result<(), OpsError>)
        ensures
            r is Ok ==> rename_post(old(self).fs(), final(self).fs(), from@, to@),
            r matches Err(e) ==> final(self).fs() == old(self).fs() && (e matches
                OpsError::FailRename { from: f, to: t, .. } && f@ == from@ && t@ == to@),
    ;

    /// Duplicates the file `from` at `to`, leaving `from` untouched.
    fn copy(&mut self, from: &String, to: &String) -> (r: Result<(), OpsError>)
        ensures
            r is Ok ==> final(self).fs() == old(self).fs().insert(to@, false),
            r matches Err(e) ==> (e matches OpsError::FailCopy { from: f, to: t, .. } && f@ == from@
                && t@ == to@),
    ;

    /// Ensures the path exists as a directory, creating what is missing.
    fn create_dir_all(&mut self, path: &String) -> (r: Result<(), OpsError>)
        ensures
            r is Ok ==> create_post(old(self).fs(), final(self).fs(), path@),
            r matches Err(e) ==> e is Io,
    ;
}

/// The `k`-th temporary-name candidate for `name`: a tilde is appended
/// and, from the second candidate on, the decimal rendering of `k`.
pub open spec fn candidate(name: Seq<char>, k: nat) -> Seq<char> {
    if k == 0 {
        name.push('~')
    } else {
        name.push('~') + dec_digits(k)
    }
}

/// `k` is the first candidate index whose name is unused.
pub open spec fn is_first_free(m: Map<Seq<char>, bool>, name: Seq<char>, k: nat) -> bool {
    !m.dom().contains(candidate(name, k)) && (forall|j: nat|
        j < k ==> m.dom().contains(candidate(name, j)))
}

/// The first free candidate index, where one exists.
pub open spec fn tmp_index(m: Map<Seq<char>, bool>, name: Seq<char>) -> nat {
    choose|k: nat| is_first_free(m, name, k)
}

/// The temporary name an occupant of `name` is displaced to.
pub open spec fn tmp_name(m: Map<Seq<char>, bool>, name: Seq<char>) -> Seq<char> {
    candidate(name, tmp_index(m, name))
}

/// A candidate extends its name with a tilde and then digits only, so it
/// never lies under the name's own subtree.
proof fn lemma_candidate_shape(name: Seq<char>, k: nat)
    ensures
        ({
            let c = candidate(name, k);
            &&& c.len() > name.len()
            &&& c.take(name.len() as int) == name
            &&& c[name.len() as int] == '~'
            &&& forall|i: int|
                name.len() < i < c.len() ==> crate::numtext::is_digit(#[trigger] c[i])
        }),
{
    let c = candidate(name, k);
    if k == 0 {
        assert(c.take(name.len() as int) =~= name);
    } else {
        lemma_dec_digits_value(k);
        assert(c.take(name.len() as int) =~= name);
        assert(forall|i: int|
            name.len() < i < c.len() ==> crate::numtext::is_digit(#[trigger] c[i])) by {
            assert(forall|i: int|
                name.len() < i < c.len() ==> c[i] == dec_digits(k)[i - name.len() - 1]);
        }
    }
}

/// When the target does not lie under the source, neither does any of the
/// target's temporary-name candidates, short of being the source itself.
proof fn lemma_candidate_not_in_subtree(t: Seq<char>, k: nat, src: Seq<char>)
    requires
        !in_subtree(t, src),
        candidate(t, k) != src,
    ensures
        !in_subtree(candidate(t, k), src),
{
    lemma_candidate_shape(t, k);
    let c = candidate(t, k);
    if in_subtree(c, src) {
        assert(c.len() > src.len());
        assert(c.take(src.len() as int) == src && c[src.len() as int] == '/');
        if src.len() < t.len() {
            assert(t.take(src.len() as int) =~= c.take(t.len() as int).take(src.len() as int));
            assert(c.take(t.len() as int).take(src.len() as int) =~= c.take(src.len() as int));
            assert(t[src.len() as int] == c[src.len() as int]);
            assert(in_subtree(t, src));
        } else if src.len() == t.len() {
            assert(c[src.len() as int] == '~');
        } else {
            assert(crate::numtext::is_digit(c[src.len() as int]));
        }
    }
}

/// No candidate lies under the name it is derived from, nor the name
/// under a candidate.
proof fn lemma_candidate_separate(t: Seq<char>, k: nat)
    ensures
        !in_subtree(candidate(t, k), t),
        !in_subtree(t, candidate(t, k)),
{
    lemma_candidate_shape(t, k);
    let c = candidate(t, k);
    assert(c[t.len() as int] == '~');
}

/// At most one candidate index is the first free one.
pub proof fn lemma_first_free_unique(m: Map<Seq<char>, bool>, name: Seq<char>, k: nat)
    requires
        is_first_free(m, name, k),
    ensures
        tmp_index(m, name) == k,
        tmp_name(m, name) == candidate(name, k),
{
    assert(is_first_free(m, name, tmp_index(m, name))) by {
        assert(exists|j: nat| is_first_free(m, name, j));
    }
    let k2 = tmp_index(m, name);
    if k < k2 {
        assert(m.dom().contains(candidate(name, k)));
    }
    if k2 < k {
        assert(m.dom().contains(candidate(name, k2)));
    }
}

/// Produces a sibling name for `name` that the capability reports unused:
/// a tilde is appended and, while the result is taken, the successive
/// integers 1, 2, … are tried after the tilde in turn. Fails only when
/// every candidate the counter can name is taken.
pub fn get_unique_tmp_name<T: Operation>(ops: &T, name: &String) -> (r: Result<String, OpsError>)
    ensures
        r matches Ok(s) ==> s@ == tmp_name(ops.fs(), name@) && !ops.fs().dom().contains(s@),
        r matches Err(e) ==> e is Io && (forall|j: nat|
            j < usize::MAX as nat ==> ops.fs().dom().contains(candidate(name@, j))),
{
    let mut cand = name.clone();
    proof {
        reveal_strlit("~");
    }
    cand.append("~");
    proof {
        assert(cand@ =~= candidate(name@, 0));
    }
    let mut i: usize = 1;
    while ops.path_exists(&cand)
        invariant
            1 <= i,
            cand@ == candidate(name@, (i - 1) as nat),
            forall|j: nat| j < i - 1 ==> ops.fs().dom().contains(candidate(name@, j)),
        decreases usize::MAX - i,
    {
        proof {
            assert(ops.fs().dom().contains(candidate(name@, (i - 1) as nat)));
        }
        if i == usize::MAX {
            proof {
                reveal_strlit("no unused temporary name available");
                assert(forall|j: nat|
                    j < usize::MAX as nat ==> ops.fs().dom().contains(candidate(name@, j)));
            }
            return Err(OpsError::Io(String::from_str("no unused temporary name available")));
        }
        let istr = usize_to_string(i);
        let mut next = name.clone();
        next.append("~");
        next.append(istr.as_str());
        cand = next;
        proof {
            reveal_strlit("~");
            assert(cand@ =~= candidate(name@, i as nat));
        }
        i = i + 1;
    }
    proof {
        assert(is_first_free(ops.fs(), name@, (i - 1) as nat));
        lemma_first_free_unique(ops.fs(), name@, (i - 1) as nat);
    }
    Ok(cand)
}

/// The identifier is tracked, as a pending or an already resolved item.
pub open spec fn edit_known(P: Map<usize, Seq<char>>, D: Map<usize, Seq<char>>, n: usize) -> bool {
    P.dom().contains(n) || D.dom().contains(n)
}

/// The edit confirms a pending item's current path: no filesystem action,
/// yet the item is resolved at that path.
pub open spec fn edit_noop(
    P: Map<usize, Seq<char>>,
    D: Map<usize, Seq<char>>,
    n: usize,
    t: Seq<char>,
) -> bool {
    !D.dom().contains(n) && P.dom().contains(n) && P[n] == t
}

/// The edit leaves the item as it is: an empty target on a known item.
pub open spec fn edit_skip(
    P: Map<usize, Seq<char>>,
    D: Map<usize, Seq<char>>,
    n: usize,
    t: Seq<char>,
) -> bool {
    edit_known(P, D, n) && !edit_noop(P, D, n, t) && t.len() == 0
}

/// The edit asks for a move or a copy.
pub open spec fn edit_act(
    P: Map<usize, Seq<char>>,
    D: Map<usize, Seq<char>>,
    n: usize,
    t: Seq<char>,
) -> bool {
    edit_known(P, D, n) && !edit_noop(P, D, n, t) && t.len() > 0
}

/// The effective source path of an edit: the resolved path when the
/// identifier was already resolved (a copy), else the pending path.
pub open spec fn edit_src(
    P: Map<usize, Seq<char>>,
    D: Map<usize, Seq<char>>,
    n: usize,
) -> Seq<char> {
    if D.dom().contains(n) {
        D[n]
    } else {
        P[n]
    }
}

/// The source lies neither at or below the target nor at or below the
/// target's displacement name; every ordinary edit satisfies this, since a
/// source that sits below its own target cannot be moved onto it.
pub open spec fn displacement_clear(
    P: Map<usize, Seq<char>>,
    D: Map<usize, Seq<char>>,
    M: Map<Seq<char>, bool>,
    n: usize,
    t: Seq<char>,
) -> bool {
    M.dom().contains(t) ==> {
        let src = edit_src(P, D, n);
        !in_subtree(src, t) && !in_subtree(src, tmp_name(M, t))
    }
}

/// The pending set after a successful move or copy: a displaced occupant's
/// entries are repointed at its temporary name, a renamed directory's
/// descendants follow it, and the edited identifier leaves the set.
pub open spec fn act_pending(
    P: Map<usize, Seq<char>>,
    D: Map<usize, Seq<char>>,
    M: Map<Seq<char>, bool>,
    n: usize,
    t: Seq<char>,
) -> Map<usize, Seq<char>> {
    let src = edit_src(P, D, n);
    let p1 = if M.dom().contains(t) {
        map_replace_value(P, t, tmp_name(M, t))
    } else {
        P
    };
    let dir_after = !D.dom().contains(n) && M.dom().contains(src) && M[src];
    let p2 = if dir_after {
        map_rewrite_prefix(p1, src, t)
    } else {
        p1
    };
    p2.remove(n)
}

proof fn lemma_rebase_self(p: Seq<char>, to: Seq<char>)
    ensures
        rebase(p, p, to) == to,
{
    assert(rebase(p, p, to) =~= to);
}

/// The edit's source and target lie in neither one another's subtree, nor
/// does the source lie under the displacement name: the geometry of every
/// ordinary edit. Under it the contract pins the filesystem outcome too.
pub open spec fn edit_separated(
    P: Map<usize, Seq<char>>,
    D: Map<usize, Seq<char>>,
    M: Map<Seq<char>, bool>,
    n: usize,
    t: Seq<char>,
) -> bool {
    let src = edit_src(P, D, n);
    &&& !in_subtree(src, t)
    &&& !in_subtree(t, src)
    &&& (M.dom().contains(t) ==> !in_subtree(src, tmp_name(M, t)))
}

/// What the filesystem view shows after a successful move or copy of a
/// separated edit: the target holds the source's kind, a moved source is
/// gone where a copied one stays, a displaced occupant's whole subtree
/// stands at the temporary name, a moved directory's descendants stand
/// under the target, entries elsewhere persist, and the target's parent
/// exists wherever the engine had to provide it.
pub open spec fn act_fs_post(
    M: Map<Seq<char>, bool>,
    M2: Map<Seq<char>, bool>,
    P: Map<usize, Seq<char>>,
    D: Map<usize, Seq<char>>,
    n: usize,
    t: Seq<char>,
) -> bool {
    let src = edit_src(P, D, n);
    let is_copy = D.dom().contains(n);
    let displaced = M.dom().contains(t);
    let tmpn = tmp_name(M, t);
    &&& M2.dom().contains(t) && M2[t] == (if is_copy {
        false
    } else {
        M[src]
    })
    &&& (!is_copy ==> !M2.dom().contains(src))
    &&& (is_copy ==> M2.dom().contains(src) && M2[src] == M[src])
    &&& (displaced ==> forall|k: Seq<char>|
        #[trigger] M.dom().contains(k) && in_subtree(k, t) ==> M2.dom().contains(
            rebase(k, t, tmpn),
        ) && M2[rebase(k, t, tmpn)] == M[k])
    &&& (!is_copy ==> forall|k: Seq<char>|
        #[trigger] M.dom().contains(k) && in_subtree(k, src) ==> M2.dom().contains(
            rebase(k, src, t),
        ) && M2[rebase(k, src, t)] == M[k])
    &&& (forall|k: Seq<char>|
        #[trigger] M.dom().contains(k) && !in_subtree(k, src) && !in_subtree(k, t) && (displaced
            ==> !in_subtree(k, tmpn)) ==> M2.dom().contains(k) && M2[k] == M[k])
    &&& (0 < parent_spec(t).len() < t.len() && !in_subtree(parent_spec(t), src)
        ==> M2.dom().contains(parent_spec(t)))
}

/// Assembles the final filesystem view of a successful separated edit from
/// the effects of its individual capability calls: the displacement
/// rename, the directory creation, and the move or copy itself.
proof fn lemma_act_fs_post(
    M: Map<Seq<char>, bool>,
    m_mid: Map<Seq<char>, bool>,
    m_pre: Map<Seq<char>, bool>,
    m2: Map<Seq<char>, bool>,
    P: Map<usize, Seq<char>>,
    D: Map<usize, Seq<char>>,
    n: usize,
    t: Seq<char>,
)
    requires
        edit_act(P, D, n, t),
        edit_separated(P, D, M, n, t),
        M.dom().contains(edit_src(P, D, n)),
        M.dom().contains(t) ==> rename_post(M, m_mid, t, tmp_name(M, t)) && !M.dom().contains(
            tmp_name(M, t),
        ) && (exists|j: nat| tmp_name(M, t) == candidate(t, j)),
        !M.dom().contains(t) ==> m_mid == M,
        m_mid == m_pre || create_post(m_mid, m_pre, parent_spec(t)),
        parent_spec(t).len() > 0 ==> m_pre.dom().contains(parent_spec(t)),
        !D.dom().contains(n) ==> rename_post(m_pre, m2, edit_src(P, D, n), t),
        D.dom().contains(n) ==> m2 == m_pre.insert(t, false),
    ensures
        act_fs_post(M, m2, P, D, n, t),
{
    let src = edit_src(P, D, n);
    let is_copy = D.dom().contains(n);
    let displaced = M.dom().contains(t);
    let tmpn = tmp_name(M, t);
    let par = parent_spec(t);

    if displaced {
        let j = choose|j: nat| tmpn == candidate(t, j);
        lemma_candidate_shape(t, j);
        lemma_candidate_separate(t, j);
        lemma_candidate_not_in_subtree(t, j, src);
    }
    assert(in_subtree(src, src) && in_subtree(t, t));

    // The source survives displacement and directory creation unchanged.
    assert(m_pre.dom().contains(src) && m_pre[src] == M[src]);

    // Target entry and the fate of the source.
    if is_copy {
        assert(m2.dom().contains(t) && m2[t] == false);
        assert(m2.dom().contains(src) && m2[src] == M[src]);
    } else {
        lemma_rebase_self(src, t);
        assert(m2.dom().contains(t) && m2[t] == M[src]);
        assert(!m2.dom().contains(src));
    }

    // A displaced occupant's subtree stands at the temporary name.
    if displaced {
        assert forall|k: Seq<char>| #[trigger] M.dom().contains(k) && in_subtree(k, t)
            implies m2.dom().contains(rebase(k, t, tmpn)) && m2[rebase(k, t, tmpn)] == M[k] by {
            let k2 = rebase(k, t, tmpn);
            lemma_rebase_in_subtree(k, t, tmpn);
            assert(m_mid.dom().contains(k2) && m_mid[k2] == M[k]);
            assert(m_pre.dom().contains(k2) && m_pre[k2] == M[k]);
            assert(!in_subtree(k2, t)) by {
                if in_subtree(k2, t) {
                    lemma_subtree_roots(k2, tmpn, t);
                }
            }
            assert(!in_subtree(k2, src)) by {
                if in_subtree(k2, src) {
                    lemma_subtree_roots(k2, tmpn, src);
                }
            }
            if is_copy {
                assert(k2 != t);
            }
        }
    }

    // A moved directory's descendants stand under the target.
    if !is_copy {
        assert forall|k: Seq<char>| #[trigger] M.dom().contains(k) && in_subtree(k, src)
            implies m2.dom().contains(rebase(k, src, t)) && m2[rebase(k, src, t)] == M[k] by {
            if displaced {
                assert(!in_subtree(k, t)) by {
                    if in_subtree(k, t) {
                        lemma_subtree_roots(k, src, t);
                    }
                }
                assert(!in_subtree(k, tmpn)) by {
                    if in_subtree(k, tmpn) {
                        lemma_subtree_roots(k, src, tmpn);
                    }
                }
            }
            assert(m_pre.dom().contains(k) && m_pre[k] == M[k]);
        }
    }

    // Entries elsewhere persist.
    assert forall|k: Seq<char>|
        #[trigger] M.dom().contains(k) && !in_subtree(k, src) && !in_subtree(k, t) && (displaced
            ==> !in_subtree(k, tmpn)) implies m2.dom().contains(k) && m2[k] == M[k] by {
        assert(m_pre.dom().contains(k) && m_pre[k] == M[k]);
        if is_copy {
            assert(k != t);
        }
    }

    // The target's parent exists where the engine had to provide it.
    if 0 < par.len() < t.len() && !in_subtree(par, src) {
        assert(!in_subtree(par, t));
        assert(m2.dom().contains(par));
    }
}

/// The resolution engine: pending identifier-to-path bindings, resolved
/// bindings, and the application of parsed edits through a filesystem
/// capability.
pub struct Operator {
    items: IdMap,
    dones: IdMap,
}

impl Operator {
    /// Identifiers not yet resolved, with their current pending paths.
    pub closed spec fn pending(&self) -> Map<usize, Seq<char>> {
        self.items@
    }

    /// Identifiers already resolved, with the paths their edits produced.
    pub closed spec fn resolved(&self) -> Map<usize, Seq<char>> {
        self.dones@
    }

    /// A fresh engine over the given identifier-to-path bindings, with
    /// nothing resolved yet.
    pub fn new(items: IdMap) -> (r: Operator)
        ensures
            r.pending() == items@,
            r.resolved() == Map::<usize, Seq<char>>::empty(),
    {
        Operator { items, dones: IdMap::new() }
    }

    /// The pending set.
    pub fn items(&self) -> (r: &IdMap)
        ensures
            r@ == self.pending(),
    {
        &self.items
    }

    /// The resolved set.
    pub fn dones(&self) -> (r: &IdMap)
        ensures
            r@ == self.resolved(),
    {
        &self.dones
    }

    /// Repoints every pending entry whose path equals `from` at `to`; used
    /// when a target's occupant is displaced so it keeps its identity.
    fn update_items(&mut self, from: &String, to: &String)
        ensures
            final(self).pending() == map_replace_value(old(self).pending(), from@, to@),
            final(self).resolved() == old(self).resolved(),
    {
        self.items.replace_values(from, to);
    }

    /// Rewrites every pending path that starts with `from`, replacing that
    /// prefix with `to`: the cascade after a directory rename.
    pub fn update_dir(&mut self, from: &String, to: &String)
        ensures
            final(self).pending() == map_rewrite_prefix(old(self).pending(), from@, to@),
            final(self).resolved() == old(self).resolved(),
    {
        self.items.rewrite_prefix(from, to);
    }

    /// Applies one parsed edit, threading the pending and resolved sets
    /// and performing filesystem effects through the capability.
    ///
    /// An unknown identifier fails and changes nothing. An edit confirming
    /// a pending path resolves it without touching the filesystem. An
    /// empty target on a known item changes nothing. Otherwise the source
    /// is the resolved path for an already resolved identifier (a copy)
    /// and the pending path else; a missing source evicts the pending
    /// entry and fails; an existing target is first displaced to a fresh
    /// temporary name, pending entries at that path following it; missing
    /// parent directories are created; the move or copy is performed; and
    /// a renamed directory's pending descendants are rewritten under the
    /// target before the identifier is recorded as resolved.
    pub fn apply_changes<T: Operation>(&mut self, parsed_line: ParsedLine, ops: &mut T) -> (r:
        Result<(), OpsError>)
        ensures
            ({
                let P = old(self).pending();
                let D = old(self).resolved();
                let M = old(ops).fs();
                let n = parsed_line.num;
                let t = parsed_line.filename@;
                let src = edit_src(P, D, n);
                &&& (!edit_known(P, D, n) ==> r == Err::<(), OpsError>(OpsError::UnknownNumber(n))
                    && final(self).pending() == P && final(self).resolved() == D && final(ops).fs()
                    == M)
                &&& (r matches Err(OpsError::UnknownNumber(m)) ==> !edit_known(P, D, n) && m == n)
                &&& (edit_noop(P, D, n, t) ==> r is Ok && final(self).pending() == P.remove(n)
                    && final(self).resolved() == D.insert(n, t) && final(ops).fs() == M)
                &&& (edit_skip(P, D, n, t) ==> r is Ok && final(self).pending() == P
                    && final(self).resolved() == D && final(ops).fs() == M)
                &&& (edit_act(P, D, n, t) && !M.dom().contains(src) ==> (r matches Err(
                    OpsError::NotFound(p),
                ) && p@ == src) && final(self).pending() == P.remove(n) && final(self).resolved()
                    == D && final(ops).fs() == M)
                &&& (r matches Err(OpsError::NotFound(p)) ==> edit_act(P, D, n, t)
                    && !M.dom().contains(src) && p@ == src)
                &&& (r is Ok && edit_act(P, D, n, t) ==> M.dom().contains(src)
                    && final(self).resolved() == D.insert(n, t) && final(self).pending().dom()
                    == P.dom().remove(n))
                &&& (r is Ok && edit_act(P, D, n, t) && displacement_clear(P, D, M, n, t)
                    ==> final(self).pending() == act_pending(P, D, M, n, t))
                &&& (r is Ok && edit_act(P, D, n, t) && edit_separated(P, D, M, n, t)
                    ==> act_fs_post(M, final(ops).fs(), P, D, n, t))
                &&& (!(r is Ok) ==> final(self).resolved() == D)
                &&& (r matches Err(e) && (e is Io || e is FailRename || e is FailCopy) ==> edit_act(
                    P,
                    D,
                    n,
                    t,
                ) && M.dom().contains(src) && (final(self).pending() == P || (M.dom().contains(t)
                    && final(self).pending() == map_replace_value(P, t, tmp_name(M, t)))))
                &&& (r matches Err(e) && e is FailCopy ==> D.dom().contains(n))
            }),
    {
        let ghost p_start = self.pending();
        let ghost d_start = self.resolved();
        let ghost m_start = ops.fs();
        let num = parsed_line.num;
        let new_name = parsed_line.filename;
        let is_copy = self.dones.contains_key(num);
        let in_items = self.items.contains_key(num);
        if !in_items && !is_copy {
            return Err(OpsError::UnknownNumber(num));
        }
        let mut is_noop = false;
        if !is_copy {
            match self.items.get(num) {
                Some(cur) => {
                    if str_eq(cur.as_str(), new_name.as_str()) {
                        is_noop = true;
                    }
                },
                None => {
                },
            }
        }
        if !is_noop {
            if new_name.as_str().is_empty() {
                return Ok(());
            }
            let src: String = if is_copy {
                match self.dones.get(num) {
                    Some(s) => s.clone(),
                    None => unreached(),
                }
            } else {
                match self.items.get(num) {
                    Some(s) => s.clone(),
                    None => unreached(),
                }
            };
            proof {
                assert(src@ == edit_src(p_start, d_start, num));
            }
            if !ops.path_exists(&src) {
                self.items.remove(num);
                return Err(OpsError::NotFound(src));
            }
            let target_taken = ops.path_exists(&new_name);
            let ghost tmpn = tmp_name(m_start, new_name@);
            if target_taken {
                let tmp = match get_unique_tmp_name(ops, &new_name) {
                    Ok(t) => t,
                    Err(e) => {
                        return Err(e);
                    },
                };
                proof {
                    assert(tmp@ == tmpn);
                    assert(!m_start.dom().contains(tmpn));
                    assert(tmpn == candidate(new_name@, tmp_index(m_start, new_name@)));
                }
                match ops.rename(&new_name, &tmp) {
                    Ok(()) => {
                    },
                    Err(e) => {
                        return Err(e);
                    },
                }
                self.update_items(&new_name, &tmp);
                proof {
                    assert(rename_post(m_start, ops.fs(), new_name@, tmpn));
                }
            }
            let ghost m_mid = ops.fs();
            proof {
                if displacement_clear(p_start, d_start, m_start, num, new_name@) && target_taken {
                    assert(in_subtree(src@, src@));
                    assert(m_mid.dom().contains(src@) && m_mid[src@] == m_start[src@]);
                }
            }
            let parent = parent_of(new_name.as_str());
            if !parent.as_str().is_empty() {
                if !ops.path_exists(&parent) {
                    match ops.create_dir_all(&parent) {
                        Ok(()) => {
                        },
                        Err(e) => {
                            return Err(e);
                        },
                    }
                }
            }
            let ghost m_pre = ops.fs();
            proof {
                assert(m_mid == m_pre || create_post(m_mid, m_pre, parent_spec(new_name@)));
                assert(parent_spec(new_name@).len() > 0 ==> m_pre.dom().contains(
                    parent_spec(new_name@),
                ));
                if displacement_clear(p_start, d_start, m_start, num, new_name@) {
                    assert(m_pre.dom().contains(src@) && m_pre[src@] == m_start[src@]);
                }
            }
            let res = if is_copy {
                ops.copy(&src, &new_name)
            } else {
                ops.rename(&src, &new_name)
            };
            match res {
                Ok(()) => {
                },
                Err(e) => {
                    return Err(e);
                },
            }
            proof {
                if is_copy {
                    assert(ops.fs() == m_pre.insert(new_name@, false));
                } else {
                    assert(in_subtree(src@, src@));
                    lemma_rebase_self(src@, new_name@);
                    assert(rename_post(m_pre, ops.fs(), src@, new_name@));
                    if m_pre.dom().contains(src@) {
                        assert(ops.fs().dom().contains(new_name@) && ops.fs()[new_name@]
                            == m_pre[src@]);
                    }
                }
            }
            if ops.is_dir(&new_name) {
                self.update_dir(&src, &new_name);
            }
            proof {
                if edit_act(p_start, d_start, num, new_name@) && edit_separated(
                    p_start,
                    d_start,
                    m_start,
                    num,
                    new_name@,
                ) {
                    lemma_act_fs_post(
                        m_start,
                        m_mid,
                        m_pre,
                        ops.fs(),
                        p_start,
                        d_start,
                        num,
                        new_name@,
                    );
                }
            }
        }
        self.dones.insert(num, new_name);
        self.items.remove(num);
        proof {
            if edit_act(p_start, d_start, num, parsed_line.filename@) && displacement_clear(
                p_start,
                d_start,
                m_start,
                num,
                parsed_line.filename@,
            ) {
                assert(self.pending() =~= act_pending(
                    p_start,
                    d_start,
                    m_start,
                    num,
                    parsed_line.filename@,
                ));
            }
            assert(self.pending().dom() =~= p_start.dom().remove(num));
        }
        Ok(())
    }
}

} // verus!
