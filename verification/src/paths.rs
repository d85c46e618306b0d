use vstd::prelude::*;
use vstd::string::*;

verus! {

/// `s` begins with `prefix`, character for character.
pub open spec fn starts_with(s: Seq<char>, prefix: Seq<char>) -> bool {
    s.len() >= prefix.len() && s.take(prefix.len() as int) == prefix
}

/// `p` names `root` itself or an entry below it (`root` followed by a slash).
pub open spec fn in_subtree(p: Seq<char>, root: Seq<char>) -> bool {
    p == root || (p.len() > root.len() && p.take(root.len() as int) == root && p[root.len() as int]
        == '/')
}

/// `p` with the prefix `from` replaced by `to`.
pub open spec fn rebase(p: Seq<char>, from: Seq<char>, to: Seq<char>) -> Seq<char>
    recommends
        from.len() <= p.len(),
{
    to + p.skip(from.len() as int)
}

/// Index of the last slash of `s` strictly before position `i`, or -1.
pub open spec fn last_slash_at(s: Seq<char>, i: int) -> int
    decreases i,
{
    if i <= 0 {
        -1
    } else if s[i - 1] == '/' {
        i - 1
    } else {
        last_slash_at(s, i - 1)
    }
}

/// The textual parent of a path: everything before the final slash, the
/// root for a path directly under it, and empty for a bare name.
pub open spec fn parent_spec(s: Seq<char>) -> Seq<char> {
    let j = last_slash_at(s, s.len() as int);
    if j < 0 {
        Seq::empty()
    } else if j == 0 {
        seq!['/']
    } else {
        s.take(j)
    }
}

/// A rebased subtree entry lies under the rebased root.
pub proof fn lemma_rebase_in_subtree(k: Seq<char>, from: Seq<char>, to: Seq<char>)
    requires
        in_subtree(k, from),
    ensures
        in_subtree(rebase(k, from, to), to),
{
    if k == from {
        assert(rebase(k, from, to) =~= to);
    } else {
        let r = rebase(k, from, to);
        assert(r.len() > to.len());
        assert(r.take(to.len() as int) =~= to);
        assert(r[to.len() as int] == k[from.len() as int]);
    }
}

/// Two subtrees sharing an entry have comparable roots: one root lies in
/// the other's subtree.
pub proof fn lemma_subtree_roots(k: Seq<char>, a: Seq<char>, b: Seq<char>)
    requires
        in_subtree(k, a),
        in_subtree(k, b),
    ensures
        in_subtree(a, b) || in_subtree(b, a),
{
    if a.len() == b.len() {
        if k == a && k == b {
        } else if k == a {
            assert(k.len() > b.len());
        } else if k == b {
            assert(k.len() > a.len());
        } else {
            assert(a =~= b);
        }
    } else if a.len() < b.len() {
        assert(k != a);
        assert(k.take(a.len() as int) == a && k[a.len() as int] == '/');
        let kb = if k == b {
            k
        } else {
            k.take(b.len() as int)
        };
        assert(kb == b);
        assert(b.take(a.len() as int) =~= k.take(a.len() as int));
        assert(b[a.len() as int] == k[a.len() as int]);
        assert(in_subtree(b, a));
    } else {
        assert(k != b);
        assert(k.take(b.len() as int) == b && k[b.len() as int] == '/');
        let ka = if k == a {
            k
        } else {
            k.take(a.len() as int)
        };
        assert(ka == a);
        assert(a.take(b.len() as int) =~= k.take(b.len() as int));
        assert(a[b.len() as int] == k[b.len() as int]);
        assert(in_subtree(a, b));
    }
}

pub fn str_starts_with(s: &str, prefix: &str) -> (r: bool)
    ensures
        r == starts_with(s@, prefix@),
{
    let n = s.unicode_len();
    let m = prefix.unicode_len();
    if n < m {
        return false;
    }
    let mut i: usize = 0;
    while i < m
        invariant
            i <= m,
            m <= n,
            n == s@.len(),
            m == prefix@.len(),
            forall|j: int| 0 <= j < i ==> s@[j] == prefix@[j],
        decreases m - i,
    {
        if s.get_char(i) != prefix.get_char(i) {
            assert(s@.take(m as int)[i as int] != prefix@[i as int]);
            return false;
        }
        i = i + 1;
    }
    proof {
        assert(s@.take(m as int) =~= prefix@);
    }
    true
}

/// Whether two path strings are equal, character for character.
pub fn str_eq(a: &str, b: &str) -> (r: bool)
    ensures
        r == (a@ == b@),
{
    let n = a.unicode_len();
    let m = b.unicode_len();
    if n != m {
        return false;
    }
    let r = str_starts_with(a, b);
    proof {
        assert(a@.take(m as int) =~= a@);
    }
    r
}

pub fn path_in_subtree(p: &str, root: &str) -> (r: bool)
    ensures
        r == in_subtree(p@, root@),
{
    let n = p.unicode_len();
    let m = root.unicode_len();
    if n == m {
        let r = str_eq(p, root);
        r
    } else if n > m {
        if str_starts_with(p, root) {
            let c = p.get_char(m);
            c == '/'
        } else {
            false
        }
    } else {
        false
    }
}

/// `p` with its leading `from_len` characters replaced by `to`.
pub fn rebase_path(p: &str, from_len: usize, to: &String) -> (r: String)
    requires
        from_len <= p@.len(),
    ensures
        r@ == rebase(p@, p@.take(from_len as int), to@),
        r@ == to@ + p@.skip(from_len as int),
{
    let mut r = to.clone();
    let n = p.unicode_len();
    r.append(p.substring_char(from_len, n));
    proof {
        assert(p@.subrange(from_len as int, n as int) =~= p@.skip(from_len as int));
    }
    r
}

pub fn parent_of(p: &str) -> (r: String)
    ensures
        r@ == parent_spec(p@),
{
    let n = p.unicode_len();
    let mut i: usize = n;
    while i > 0
        invariant
            i <= n,
            n == p@.len(),
            last_slash_at(p@, n as int) == last_slash_at(p@, i as int),
        decreases i,
    {
        if p.get_char(i - 1) == '/' {
            if i == 1 {
                proof {
                    reveal_strlit("/");
                }
                let root = String::from_str("/");
                proof {
                    assert(root@ =~= parent_spec(p@));
                }
                return root;
            }
            let par = String::from_str(p.substring_char(0, i - 1));
            proof {
                assert(p@.subrange(0, i - 1) =~= p@.take(i - 1));
            }
            return par;
        }
        i = i - 1;
    }
    String::new()
}

} // verus!
