use vstd::prelude::*;

use crate::config::MAX_INCLUDE_DEPTH;
use crate::entries::{failed_include, include_entries, RawEntry};
use crate::finalize::{edge_trimmed, env_fallback, fin_members, fin_tree, fin_value, hop_budget, null_text, Doc, Env};
use crate::substitute::subst_of;
use crate::tree::{find_from, find_in, grow, put, Tree};
use crate::value::{path_of, RawValue};

verus! {

/// Whether paths `p` and `q` part under `t` at a key that both find: below
/// that point they lead to different children.
pub open spec fn parts(t: Tree, p: Seq<RawValue>, q: Seq<RawValue>) -> bool
    decreases p.len(),
{
    p.len() > 0 && q.len() > 0 && match t {
        Tree::Leaf(_) => false,
        Tree::Branch(cs, _) => {
            let ip = find_from(cs, p[0], 0);
            let iq = find_from(cs, q[0], 0);
            ip >= 0 && iq >= 0 && (ip != iq || parts(cs[ip].1, p.drop_first(), q.drop_first()))
        },
    }
}

proof fn lemma_find_from_range(cs: Seq<(RawValue, Tree)>, k: RawValue, i: int)
    ensures
        find_from(cs, k, i) == -1 || (i <= find_from(cs, k, i) < cs.len()),
    decreases cs.len() - i,
{
    if 0 <= i < cs.len() {
        lemma_find_from_range(cs, k, i + 1);
    }
}

proof fn lemma_find_from_update(cs: Seq<(RawValue, Tree)>, k: RawValue, i: int, j: int, t: Tree)
    requires
        0 <= j < cs.len(),
        0 <= i,
    ensures
        find_from(cs.update(j, (cs[j].0, t)), k, i) == find_from(cs, k, i),
    decreases cs.len() - i,
{
    if i < cs.len() {
        lemma_find_from_update(cs, k, i + 1, j, t);
    }
}

/// A substituted value is a copy: storing a node at path `p` leaves what
/// any path `q` that parts from `p` holds as it was, so a copy placed at `q`
/// does not see a later write at `p`.
pub proof fn lemma_write_leaves_other_copy(t: Tree, p: Seq<RawValue>, q: Seq<RawValue>, n: Tree)
    requires
        parts(t, p, q),
    ensures
        find_in(put(t, p, n), q) == find_in(t, q),
    decreases p.len(),
{
    if let Tree::Branch(cs, h) = t {
        let ip = find_from(cs, p[0], 0);
        let iq = find_from(cs, q[0], 0);
        lemma_find_from_range(cs, p[0], 0);
        lemma_find_from_range(cs, q[0], 0);
        let cs2 = cs.update(ip, (cs[ip].0, put(cs[ip].1, p.drop_first(), n)));
        lemma_find_from_update(cs, q[0], 0, ip, put(cs[ip].1, p.drop_first(), n));
        if ip == iq {
            lemma_write_leaves_other_copy(cs[ip].1, p.drop_first(), q.drop_first(), n);
        }
        assert(put(t, p, n) == Tree::Branch(cs2, h));
    }
}

/// With the environment fallback on, a substitution that names no node of
/// the tree resolves to the variable named by its dotted path, or to the
/// bad value where there is none; with it off, to the bad value.
pub proof fn lemma_environment_fallback(
    p: RawValue,
    root: Tree,
    env: Env,
    system: bool,
    at: Seq<RawValue>,
    fuel: nat,
)
    requires
        fuel > 0,
        find_in(root, path_of(p)) == Tree::Leaf(RawValue::Bad),
    ensures
        fin_value(RawValue::Subst(Box::new(p)), root, env, system, false, None, at, fuel) == if system {
            env_fallback(env, p)
        } else {
            Doc::Bad
        },
{
    assert(fin_tree(Tree::Leaf(RawValue::Bad), root, env, system, None, at, (fuel - 1) as nat) == Doc::Bad);
}

/// An include met deeper than the limit yields the single entry that holds
/// the bad value under the file's name, whatever the file would hold.
pub proof fn lemma_include_depth_guard(
    file_path: Seq<char>,
    depth: nat,
    has_file: bool,
    loaded: Option<Seq<RawEntry>>,
)
    requires
        depth > MAX_INCLUDE_DEPTH,
    ensures
        include_entries(file_path, depth <= MAX_INCLUDE_DEPTH && has_file, loaded) == failed_include(
            file_path,
        ),
{
}

/// The empty array and the empty object literals become, wherever they are
/// stored and whatever the tree holds, an empty array and an empty map.
pub proof fn lemma_empty_literals(
    g: Tree,
    root: Tree,
    env: Env,
    system: bool,
    inc: Option<Seq<RawValue>>,
    at: Seq<RawValue>,
    fuel: nat,
)
    ensures
        fin_tree(subst_of(RawValue::EmptyArray, g, at), root, env, system, inc, at, fuel) == Doc::Array(
            Seq::empty(),
        ),
        fin_tree(subst_of(RawValue::EmptyObject, g, at), root, env, system, inc, at, fuel) == Doc::Hash(
            Seq::empty(),
        ),
{
}

/// A substitution whose target the tree already holds when it is merged is
/// resolved then, to a copy of that target.
pub proof fn lemma_backward_reference(p: RawValue, g: Tree, at: Seq<RawValue>)
    requires
        find_in(g, path_of(p)) != Tree::Leaf(RawValue::Bad),
    ensures
        subst_of(RawValue::Subst(Box::new(p)), g, at) == find_in(g, path_of(p)),
{
}

/// A substitution whose target the tree did not yet hold is kept, and the
/// second pass resolves it against the completed tree.
pub proof fn lemma_forward_reference(
    p: RawValue,
    g: Tree,
    root: Tree,
    env: Env,
    at: Seq<RawValue>,
    fuel: nat,
)
    requires
        find_in(g, path_of(p)) == Tree::Leaf(RawValue::Bad),
        fuel > 0,
    ensures
        subst_of(RawValue::Subst(Box::new(p)), g, at) == Tree::Leaf(RawValue::Subst(Box::new(p))),
        fin_value(RawValue::Subst(Box::new(p)), root, env, false, false, None, at, fuel) == fin_tree(
            find_in(root, path_of(p)),
            root,
            env,
            false,
            None,
            at,
            (fuel - 1) as nat,
        ),
{
}

/// Writing index 0 as the last key under a branch that has children starts
/// a new array there: whatever children it had, only index 0 is left.
pub proof fn lemma_index_zero_restarts_array(cs: Seq<(RawValue, Tree)>, h: Option<crate::tree::KeyType>)
    requires
        cs.len() > 0,
    ensures
        grow(Tree::Branch(cs, h), seq![RawValue::Integer(0)]) == Tree::Branch(
            seq![(RawValue::Integer(0), Tree::Leaf(RawValue::Bad))],
            None,
        ),
{
    assert(seq![RawValue::Integer(0)].drop_first().len() == 0);
}

/// The same one level down: writing `k.0` where `k` holds an array (or any
/// branch with children) leaves under `k` only a fresh index 0.
pub proof fn lemma_index_zero_restarts_array_under_key(t: Tree, k: RawValue)
    requires
        t is Branch,
        find_from(t->Branch_0, k, 0) >= 0,
        t->Branch_0[find_from(t->Branch_0, k, 0)].1 is Branch,
        t->Branch_0[find_from(t->Branch_0, k, 0)].1->Branch_0.len() > 0,
    ensures
        find_in(grow(t, seq![k, RawValue::Integer(0)]), seq![k]) == Tree::Branch(
            seq![(RawValue::Integer(0), Tree::Leaf(RawValue::Bad))],
            None,
        ),
{
    if let Tree::Branch(cs, h) = t {
        let i = find_from(cs, k, 0);
        lemma_find_from_range(cs, k, 0);
        let keys = seq![k, RawValue::Integer(0)];
        assert(keys.drop_first() == seq![RawValue::Integer(0)]);
        assert(keys.drop_first().drop_first().len() == 0);
        if let Tree::Branch(ccs, ch) = cs[i].1 {
            lemma_index_zero_restarts_array(ccs, ch);
        }
        let cs2 = cs.update(i, (cs[i].0, grow(cs[i].1, keys.drop_first())));
        assert(grow(t, keys) == Tree::Branch(cs2, None));
        lemma_find_from_update(cs, k, 0, i, grow(cs[i].1, keys.drop_first()));
        assert(find_from(cs2, k, 0) == i);
        assert(seq![k][0] == k);
        assert(seq![k].drop_first() =~= Seq::<RawValue>::empty());
        assert(find_in(cs2[i].1, Seq::<RawValue>::empty()) == cs2[i].1);
        assert(cs2[i].1 == grow(cs[i].1, seq![RawValue::Integer(0)]));
    }
}

/// The second pass may always follow at least one substitution, so the
/// laws above that ask for a budget above zero hold of every finalized tree.
pub proof fn lemma_budget_positive(t: Tree)
    ensures
        hop_budget(t) >= 1,
{
}

/// The texts of the unquoted members of a concatenation of `n` members,
/// joined with nothing between them: the first without its leading
/// whitespace, the last without its trailing whitespace, the others whole.
pub open spec fn joined_edges(vs: Seq<RawValue>, n: int) -> Seq<char>
    decreases vs.len(),
{
    if vs.len() == 0 {
        Seq::empty()
    } else {
        joined_edges(vs.drop_last(), n) + edge_trimmed(vs.last()->Unquoted_0, vs.len() - 1, n)
    }
}

/// A concatenation of unquoted texts keeps all inner whitespace: only the
/// first member's leading and the last member's trailing whitespace go.
pub proof fn lemma_concat_trims_outer_edges(
    vs: Seq<RawValue>,
    n: int,
    root: Tree,
    env: Env,
    system: bool,
    inc: Option<Seq<RawValue>>,
    at: Seq<RawValue>,
    fuel: nat,
)
    requires
        forall|i: int| 0 <= i < vs.len() ==> (#[trigger] vs[i]) is Unquoted,
        forall|i: int|
            0 <= i < vs.len() ==> edge_trimmed(#[trigger] vs[i]->Unquoted_0, i, n) != null_text(),
    ensures
        fin_members(vs, n, root, env, system, inc, at, fuel) == joined_edges(vs, n),
    decreases vs.len(),
{
    if vs.len() > 0 {
        let p = vs.drop_last();
        assert forall|i: int| 0 <= i < p.len() implies (#[trigger] p[i]) is Unquoted by {
            assert(p[i] == vs[i]);
        }
        assert forall|i: int| 0 <= i < p.len() implies edge_trimmed(#[trigger] p[i]->Unquoted_0, i, n)
            != null_text() by {
            assert(p[i] == vs[i]);
        }
        lemma_concat_trims_outer_edges(p, n, root, env, system, inc, at, fuel);
        let last = vs.len() - 1;
        assert(vs.last() == vs[last]);
        assert(edge_trimmed(vs[last]->Unquoted_0, last, n) != null_text());
    }
}

/// The include depth after `k` nested includes from depth `d`, each taken
/// through `HoconLoaderConfig::included_from`.
pub open spec fn nested_depth(d: nat, k: nat) -> nat
    decreases k,
{
    if k == 0 {
        d
    } else {
        let e = nested_depth(d, (k - 1) as nat);
        if e < usize::MAX {
            e + 1
        } else {
            e
        }
    }
}

/// Nested includes end: from depth `d`, after more than
/// `MAX_INCLUDE_DEPTH - d` levels an include is refused without being read,
/// so at most `MAX_INCLUDE_DEPTH + 1 - d` levels of files are read, whatever
/// the files hold, cycles of includes included.
pub proof fn lemma_include_chain_ends(d: nat, k: nat)
    requires
        d <= usize::MAX,
        d + k > MAX_INCLUDE_DEPTH,
    ensures
        nested_depth(d, k) > MAX_INCLUDE_DEPTH,
    decreases k,
{
    if k > 0 && d + k - 1 > MAX_INCLUDE_DEPTH {
        lemma_include_chain_ends(d, (k - 1) as nat);
        lemma_nested_depth_bounded(d, (k - 1) as nat);
    } else if k > 0 {
        lemma_nested_depth_exact(d, (k - 1) as nat);
    }
}

proof fn lemma_nested_depth_bounded(d: nat, k: nat)
    requires
        d <= usize::MAX,
    ensures
        d <= nested_depth(d, k) <= usize::MAX,
    decreases k,
{
    if k > 0 {
        lemma_nested_depth_bounded(d, (k - 1) as nat);
    }
}

proof fn lemma_nested_depth_exact(d: nat, k: nat)
    requires
        d + k <= MAX_INCLUDE_DEPTH,
    ensures
        nested_depth(d, k) == d + k,
    decreases k,
{
    if k > 0 {
        lemma_nested_depth_exact(d, (k - 1) as nat);
    }
}

} // verus!
