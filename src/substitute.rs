use vstd::prelude::*;

use crate::tree::{find_in, forest_of, lemma_forest_index, lemma_forest_is, lemma_forest_len, Child, KeyType, Node, Tree};
use crate::value::{copy_values, lemma_raw_seq_index, lemma_raw_seq_len, lemma_raw_seq_push, path_of, path_of_seq, raw_of, raw_seq, HoconValue, RawValue};

verus! {

broadcast use vstd::std_specs::vec::axiom_vec_index_decreases;

/// A member of a copied concatenation, its include mark pointed at `to`.
pub open spec fn retag_member(m: RawValue, to: Seq<RawValue>) -> RawValue {
    match m {
        RawValue::Included(b, _) => RawValue::Included(b, to),
        _ => m,
    }
}

/// A copied leaf value, its include marks pointed at `to`.
pub open spec fn retag_value(v: RawValue, to: Seq<RawValue>) -> RawValue {
    match v {
        RawValue::Included(b, _) => RawValue::Included(b, to),
        RawValue::Concat(vs) => RawValue::Concat(vs.map_values(|m: RawValue| retag_member(m, to))),
        _ => v,
    }
}

/// A copied subtree, the include marks of its leaves pointed at `to`.
pub open spec fn retag(t: Tree, to: Seq<RawValue>) -> Tree
    decreases t,
{
    match t {
        Tree::Leaf(v) => Tree::Leaf(retag_value(v, to)),
        Tree::Branch(cs, h) => Tree::Branch(retag_forest(cs, to), h),
    }
}

pub open spec fn retag_forest(cs: Seq<(RawValue, Tree)>, to: Seq<RawValue>) -> Seq<(RawValue, Tree)>
    decreases cs,
{
    if cs.len() == 0 {
        Seq::empty()
    } else {
        retag_forest(cs.drop_last(), to).push((cs.last().0, retag(cs.last().1, to)))
    }
}

proof fn lemma_retag_forest(cs: Seq<(RawValue, Tree)>, to: Seq<RawValue>, j: int)
    ensures
        retag_forest(cs, to).len() == cs.len(),
        0 <= j < cs.len() ==> retag_forest(cs, to)[j] == (cs[j].0, retag(cs[j].1, to)),
    decreases cs.len(),
{
    if cs.len() > 0 {
        lemma_retag_forest(cs.drop_last(), to, j);
    }
}

/// The path that a substitution inside an include names, seen from the
/// including document: `at` without its last `n` segments, read as a path,
/// followed by the path that `p` names.
pub open spec fn fix_path(at: Seq<RawValue>, n: nat, p: RawValue) -> Seq<RawValue> {
    let keep = if at.len() >= n {
        at.len() - n
    } else {
        0
    };
    path_of_seq(at.take(keep)) + path_of(p)
}

/// A measure that shrinks as substitution descends.
pub open spec fn size_of(v: RawValue) -> nat
    decreases v,
{
    match v {
        RawValue::Concat(vs) => 3 + size_seq(vs),
        RawValue::Subst(b) => 1 + size_of(*b),
        RawValue::Included(b, _) => 1 + size_of(*b),
        _ => 1,
    }
}

pub open spec fn size_seq(vs: Seq<RawValue>) -> nat
    decreases vs,
{
    if vs.len() == 0 {
        0
    } else {
        size_seq(vs.drop_last()) + size_of(vs.last())
    }
}

/// A member is no larger than the sequence that holds it.
pub proof fn lemma_size_index(vs: Seq<RawValue>, j: int)
    requires
        0 <= j < vs.len(),
    ensures
        size_of(vs[j]) <= size_seq(vs),
    decreases vs.len(),
{
    if j < vs.len() - 1 {
        lemma_size_index(vs.drop_last(), j);
    }
}

/// The value a member of a concatenation keeps: a structured result cannot
/// be joined, so it becomes the bad value.
pub open spec fn leaf_or_bad(t: Tree) -> RawValue {
    match t {
        Tree::Leaf(x) => x,
        _ => RawValue::Bad,
    }
}

/// A leaf result marked again as coming from an include.
pub open spec fn wrap_leaf(t: Tree, op: Seq<RawValue>) -> Tree {
    match t {
        Tree::Leaf(x) => Tree::Leaf(RawValue::Included(Box::new(x), op)),
        _ => t,
    }
}

/// The first-pass resolution of a value about to be stored at `at` in the
/// tree `root` as built so far.
pub open spec fn subst_of(v: RawValue, root: Tree, at: Seq<RawValue>) -> Tree
    decreases size_of(v), 0nat,
{
    match v {
        RawValue::Subst(p) => {
            let f = find_in(root, path_of(*p));
            if f == Tree::Leaf(RawValue::Bad) {
                Tree::Leaf(v)
            } else {
                f
            }
        },
        RawValue::Concat(vs) => Tree::Leaf(RawValue::Concat(subst_members(vs, root, at, None))),
        RawValue::EmptyObject => Tree::Branch(Seq::empty(), Some(KeyType::String)),
        RawValue::EmptyArray => Tree::Branch(Seq::empty(), Some(KeyType::Int)),
        RawValue::Included(b, op) => match *b {
            RawValue::Subst(p) => {
                let f = find_in(root, fix_path(at, op.len(), *p));
                if f != Tree::Leaf(RawValue::Bad) {
                    retag(f, at)
                } else {
                    wrap_leaf(subst_of(*b, root, at), op)
                }
            },
            RawValue::Concat(vs) => Tree::Leaf(RawValue::Concat(subst_members(vs, root, at, Some(op)))),
            _ => wrap_leaf(subst_of(*b, root, at), op),
        },
        _ => Tree::Leaf(v),
    }
}

/// The members of a concatenation, each resolved; under an include each is
/// resolved as marked by it.
pub open spec fn subst_members(
    vs: Seq<RawValue>,
    root: Tree,
    at: Seq<RawValue>,
    op: Option<Seq<RawValue>>,
) -> Seq<RawValue>
    decreases size_seq(vs) + 2, 1nat,
{
    if vs.len() == 0 {
        Seq::empty()
    } else {
        let m = match op {
            Some(o) => RawValue::Included(Box::new(vs.last()), o),
            None => vs.last(),
        };
        subst_members(vs.drop_last(), root, at, op).push(leaf_or_bad(subst_of(m, root, at)))
    }
}

/// `at[..keep]` read as a path, followed by the path that `p` names.
pub fn fixed_path(at: &Vec<HoconValue>, n: usize, p: &HoconValue) -> (r: Vec<HoconValue>)
    ensures
        raw_seq(r@) == fix_path(raw_seq(at@), n as nat, p@),
{
    let keep: usize = if at.len() >= n {
        at.len() - n
    } else {
        0
    };
    proof {
        lemma_raw_seq_len(at@);
        assert(raw_seq(Seq::<HoconValue>::empty()) =~= Seq::<RawValue>::empty());
        assert(raw_seq(at@).take(0) =~= Seq::<RawValue>::empty());
    }
    let mut out: Vec<HoconValue> = Vec::new();
    let mut i: usize = 0;
    while i < keep
        invariant
            i <= keep <= at.len(),
            raw_seq(at@).len() == at.len(),
            raw_seq(out@) == path_of_seq(raw_seq(at@).take(i as int)),
        decreases keep - i,
    {
        let sub = at[i].to_path();
        let mut k: usize = 0;
        let ghost before = out@;
        while k < sub.len()
            invariant
                k <= sub.len(),
                raw_seq(out@) == raw_seq(before) + raw_seq(sub@.take(k as int)),
            decreases sub.len() - k,
        {
            let c = sub[k].copy();
            proof {
                lemma_raw_seq_push(out@, c);
                assert(sub@.take(k + 1) == sub@.take(k as int).push(sub@[k as int]));
                lemma_raw_seq_push(sub@.take(k as int), sub@[k as int]);
            }
            out.push(c);
            k = k + 1;
        }
        proof {
            assert(sub@.take(sub.len() as int) == sub@);
            lemma_raw_seq_index(at@, i as int);
            assert(raw_seq(at@).take(i + 1).drop_last() == raw_seq(at@).take(i as int));
        }
        i = i + 1;
    }
    let tail = p.to_path();
    let mut k: usize = 0;
    let ghost before = out@;
    while k < tail.len()
        invariant
            k <= tail.len(),
            raw_seq(out@) == raw_seq(before) + raw_seq(tail@.take(k as int)),
        decreases tail.len() - k,
    {
        let c = tail[k].copy();
        proof {
            lemma_raw_seq_push(out@, c);
            assert(tail@.take(k + 1) == tail@.take(k as int).push(tail@[k as int]));
            lemma_raw_seq_push(tail@.take(k as int), tail@[k as int]);
        }
        out.push(c);
        k = k + 1;
    }
    proof {
        assert(tail@.take(tail.len() as int) == tail@);
    }
    out
}

fn retag_leaf(v: &HoconValue, to_path: &Vec<HoconValue>) -> (r: HoconValue)
    ensures
        r@ == retag_value(v@, raw_seq(to_path@)),
{
    match v {
        HoconValue::Included { value, .. } => HoconValue::Included {
            value: Box::new((**value).copy()),
            original_path: copy_values(to_path),
        },
        HoconValue::Concat(values) => {
            let ghost to = raw_seq(to_path@);
            let ghost want = raw_seq(values@).map_values(|m: RawValue| retag_member(m, to));
            proof {
                lemma_raw_seq_len(values@);
            }
            let mut out: Vec<HoconValue> = Vec::new();
            let mut i: usize = 0;
            proof {
                assert(raw_seq(Seq::<HoconValue>::empty()) =~= Seq::<RawValue>::empty());
            }
            while i < values.len()
                invariant
                    i <= values.len(),
                    raw_seq(values@).len() == values.len(),
                    to == raw_seq(to_path@),
                    want == raw_seq(values@).map_values(|m: RawValue| retag_member(m, to)),
                    raw_seq(out@) == want.take(i as int),
                decreases values.len() - i,
            {
                let m = match &values[i] {
                    HoconValue::Included { value, .. } => HoconValue::Included {
                        value: Box::new((**value).copy()),
                        original_path: copy_values(to_path),
                    },
                    other => other.copy(),
                };
                proof {
                    lemma_raw_seq_index(values@, i as int);
                    lemma_raw_seq_push(out@, m);
                    assert(want.take(i + 1) =~= want.take(i as int).push(raw_of(m)));
                }
                out.push(m);
                i = i + 1;
            }
            proof {
                assert(want.take(i as int) =~= want);
            }
            HoconValue::Concat(out)
        },
        other => other.copy(),
    }
}

impl Node {
    /// A copy of the whole subtree whose include marks point at `to_path`.
    pub fn deep_clone_and_update_include_path(&self, to_path: &Vec<HoconValue>) -> (r: Node)
        ensures
            r@ == retag(self@, raw_seq(to_path@)),
        decreases self,
    {
        match self {
            Node::Leaf(v) => Node::Leaf(retag_leaf(v, to_path)),
            Node::Node { children, key_hint } => {
                let ghost to = raw_seq(to_path@);
                let ghost f = forest_of(children@);
                proof {
                    lemma_forest_len(children@);
                }
                let mut out: Vec<Child> = Vec::new();
                let mut i: usize = 0;
                while i < children.len()
                    invariant
                        *self == (Node::Node { children: *children, key_hint: *key_hint }),
                        i <= children.len(),
                        f == forest_of(children@),
                        f.len() == children.len(),
                        to == raw_seq(to_path@),
                        out.len() == i,
                        forall|j: int|
                            0 <= j < i ==> (raw_of(#[trigger] out@[j].key), tree_of_child(out@[j]))
                                == (f[j].0, retag(f[j].1, to)),
                    decreases children.len() - i,
                {
                    proof {
                        let ghost sv = *self;
                        assert(decreases_to!(sv => sv->children));
                        assert(decreases_to!(sv->children => sv->children[i as int]));
                        lemma_forest_index(children@, i as int);
                    }
                    let c = Child {
                        key: children[i].key.copy(),
                        value: children[i].value.deep_clone_and_update_include_path(to_path),
                    };
                    out.push(c);
                    i = i + 1;
                }
                proof {
                    lemma_retag_forest(f, to, 0);
                    assert forall|j: int| 0 <= j < out.len() implies retag_forest(f, to)[j] == (
                        raw_of(#[trigger] out@[j].key),
                        crate::tree::tree_of(out@[j].value),
                    ) by {
                        lemma_retag_forest(f, to, j);
                    }
                    lemma_forest_is(out@, retag_forest(f, to));
                }
                Node::Node { children: out, key_hint: *key_hint }
            },
        }
    }
}

impl Child {
    /// A copy of this child whose include marks point at `to_path`.
    pub fn deep_clone_and_update_include_path(&self, to_path: &Vec<HoconValue>) -> (r: Child)
        ensures
            r.key@ == self.key@,
            r.value@ == retag(self.value@, raw_seq(to_path@)),
    {
        Child { key: self.key.copy(), value: self.value.deep_clone_and_update_include_path(to_path) }
    }
}

pub open spec fn tree_of_child(c: Child) -> Tree {
    crate::tree::tree_of(c.value)
}

/// Whether a node is a leaf that holds the bad value.
pub fn is_bad_leaf(n: &Node) -> (r: bool)
    ensures
        r == (n@ == Tree::Leaf(RawValue::Bad)),
{
    match n {
        Node::Leaf(HoconValue::BadValue) => true,
        _ => false,
    }
}

fn leaf_value_or_bad(n: Node) -> (r: HoconValue)
    ensures
        r@ == leaf_or_bad(n@),
{
    match n {
        Node::Leaf(x) => x,
        _ => HoconValue::BadValue,
    }
}

pub open spec fn raw_opt(op: Option<&Vec<HoconValue>>) -> Option<Seq<RawValue>> {
    match op {
        Some(o) => Some(raw_seq(o@)),
        None => None,
    }
}

/// The members of a concatenation, each resolved (as marked by `op`, where
/// given).
pub fn substitute_members(
    values: &Vec<HoconValue>,
    current_tree: &Node,
    at_path: &Vec<HoconValue>,
    op: Option<&Vec<HoconValue>>,
) -> (r: Vec<HoconValue>)
    ensures
        raw_seq(r@) == subst_members(raw_seq(values@), current_tree@, raw_seq(at_path@), raw_opt(op)),
    decreases size_seq(raw_seq(values@)) + 2, 1nat,
{
    let ghost vs = raw_seq(values@);
    proof {
        lemma_raw_seq_len(values@);
        assert(raw_seq(Seq::<HoconValue>::empty()) =~= Seq::<RawValue>::empty());
        assert(vs.take(0) =~= Seq::<RawValue>::empty());
    }
    let mut out: Vec<HoconValue> = Vec::new();
    let mut i: usize = 0;
    while i < values.len()
        invariant
            i <= values.len(),
            vs == raw_seq(values@),
            vs.len() == values.len(),
            raw_seq(out@) == subst_members(vs.take(i as int), current_tree@, raw_seq(at_path@), raw_opt(op)),
        decreases values.len() - i,
    {
        proof {
            lemma_raw_seq_index(values@, i as int);
            lemma_size_index(vs, i as int);
            assert(vs.take(i + 1).drop_last() == vs.take(i as int));
            assert(vs.take(i + 1).last() == vs[i as int]);
        }
        let m = match op {
            Some(o) => HoconValue::Included { value: Box::new(values[i].copy()), original_path: copy_values(o) },
            None => values[i].copy(),
        };
        let t = m.substitute(current_tree, at_path);
        let x = leaf_value_or_bad(t);
        proof {
            lemma_raw_seq_push(out@, x);
        }
        out.push(x);
        i = i + 1;
    }
    proof {
        assert(vs.take(i as int) == vs);
    }
    out
}

impl HoconValue {
    /// The first-pass resolution of this value, about to be stored at
    /// `at_path` in `current_tree` as built so far.
    pub fn substitute(&self, current_tree: &Node, at_path: &Vec<HoconValue>) -> (r: Node)
        ensures
            r@ == subst_of(self@, current_tree@, raw_seq(at_path@)),
        decreases size_of(self@), 0nat,
    {
        match self {
            HoconValue::PathSubstitution(path) => {
                let p = path.to_path();
                let found = current_tree.find_key(&p);
                if is_bad_leaf(&found) {
                    Node::Leaf(self.copy())
                } else {
                    found
                }
            },
            HoconValue::Concat(values) => Node::Leaf(
                HoconValue::Concat(substitute_members(values, current_tree, at_path, None)),
            ),
            HoconValue::EmptyObject => {
                let r = Node::Node { children: Vec::new(), key_hint: Some(KeyType::String) };
                proof {
                    assert(forest_of(Seq::<Child>::empty()) =~= Seq::<(RawValue, Tree)>::empty());
                }
                r
            },
            HoconValue::EmptyArray => {
                let r = Node::Node { children: Vec::new(), key_hint: Some(KeyType::Int) };
                proof {
                    assert(forest_of(Seq::<Child>::empty()) =~= Seq::<(RawValue, Tree)>::empty());
                }
                r
            },
            HoconValue::Included { value, original_path } => {
                proof {
                    lemma_raw_seq_len(original_path@);
                }
                match &**value {
                    HoconValue::PathSubstitution(path) => {
                        proof {
                            assert(raw_of(**value) == RawValue::Subst(Box::new(raw_of(**path))));
                        }
                        let fixed = fixed_path(at_path, original_path.len(), &**path);
                        let found = current_tree.find_key(&fixed);
                        if !is_bad_leaf(&found) {
                            return found.deep_clone_and_update_include_path(at_path);
                        }
                    },
                    HoconValue::Concat(values) => {
                        proof {
                            assert(raw_of(**value) == RawValue::Concat(raw_seq(values@)));
                            assert(size_of(raw_of(**value)) == 3 + size_seq(raw_seq(values@)));
                        }
                        return Node::Leaf(
                            HoconValue::Concat(
                                substitute_members(values, current_tree, at_path, Some(original_path)),
                            ),
                        );
                    },
                    _ => {},
                }
                match (**value).substitute(current_tree, at_path) {
                    Node::Leaf(found) => Node::Leaf(
                        HoconValue::Included { value: Box::new(found), original_path: copy_values(original_path) },
                    ),
                    other => other,
                }
            },
            other => Node::Leaf(other.copy()),
        }
    }
}

} // verus!
