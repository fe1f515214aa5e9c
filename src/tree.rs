use vstd::prelude::*;

use crate::text::{chars_of, split_dots, split_on_dots, string_of, trim, trim_of};
use crate::value::{key_match, lemma_raw_seq_index, lemma_raw_seq_len, lemma_raw_seq_push, raw_of, raw_seq, HoconValue, RawValue};

verus! {

broadcast use vstd::std_specs::vec::axiom_vec_index_decreases;

/// Which collection an empty branch stands for.
#[derive(Clone, Copy, PartialEq, Eq, Debug, Structural)]
pub enum KeyType {
    Int,
    String,
}

/// A node of the document tree being built.
#[derive(Debug)]
pub enum Node {
    Leaf(HoconValue),
    Node { children: Vec<Child>, key_hint: Option<KeyType> },
}

/// A keyed child of a branch.
#[derive(Debug)]
pub struct Child {
    pub key: HoconValue,
    pub value: Node,
}

/// The model of a node: a leaf value, or keyed children in order.
pub enum Tree {
    Leaf(RawValue),
    Branch(Seq<(RawValue, Tree)>, Option<KeyType>),
}

pub open spec fn tree_of(n: Node) -> Tree
    decreases n,
{
    match n {
        Node::Leaf(v) => Tree::Leaf(raw_of(v)),
        Node::Node { children, key_hint } => Tree::Branch(forest_of(children@), key_hint),
    }
}

pub open spec fn forest_of(cs: Seq<Child>) -> Seq<(RawValue, Tree)>
    decreases cs,
{
    if cs.len() == 0 {
        Seq::empty()
    } else {
        forest_of(cs.drop_last()).push((raw_of(cs.last().key), tree_of(cs.last().value)))
    }
}

impl View for Node {
    type V = Tree;

    open spec fn view(&self) -> Tree {
        tree_of(*self)
    }
}

pub proof fn lemma_forest_len(cs: Seq<Child>)
    ensures
        forest_of(cs).len() == cs.len(),
    decreases cs.len(),
{
    if cs.len() > 0 {
        lemma_forest_len(cs.drop_last());
    }
}

pub proof fn lemma_forest_index(cs: Seq<Child>, j: int)
    requires
        0 <= j < cs.len(),
    ensures
        forest_of(cs)[j] == (raw_of(cs[j].key), tree_of(cs[j].value)),
    decreases cs.len(),
{
    lemma_forest_len(cs.drop_last());
    if j < cs.len() - 1 {
        lemma_forest_index(cs.drop_last(), j);
    }
}

/// Two child lists with equal models, index by index, have equal models.
pub proof fn lemma_forest_ext(a: Seq<Child>, b: Seq<Child>)
    requires
        a.len() == b.len(),
        forall|j: int|
            0 <= j < a.len() ==> raw_of(#[trigger] a[j].key) == raw_of(b[j].key) && tree_of(a[j].value)
                == tree_of(b[j].value),
    ensures
        forest_of(a) == forest_of(b),
    decreases a.len(),
{
    if a.len() > 0 {
        lemma_forest_ext(a.drop_last(), b.drop_last());
    }
}

/// A child list is modelled index by index.
pub proof fn lemma_forest_is(cs: Seq<Child>, f: Seq<(RawValue, Tree)>)
    requires
        cs.len() == f.len(),
        forall|j: int| 0 <= j < cs.len() ==> f[j] == (raw_of(#[trigger] cs[j].key), tree_of(cs[j].value)),
    ensures
        forest_of(cs) == f,
{
    lemma_forest_len(cs);
    assert forall|j: int| 0 <= j < cs.len() implies #[trigger] forest_of(cs)[j] == f[j] by {
        lemma_forest_index(cs, j);
    }
    assert(forest_of(cs) =~= f);
}

/// The index of the first child whose key matches `k`, from `i` on; -1 if none.
pub open spec fn find_from(cs: Seq<(RawValue, Tree)>, k: RawValue, i: int) -> int
    decreases cs.len() - i,
{
    if i < 0 || i >= cs.len() {
        -1
    } else if key_match(cs[i].0, k) {
        i
    } else {
        find_from(cs, k, i + 1)
    }
}

pub proof fn lemma_find_from(cs: Seq<(RawValue, Tree)>, k: RawValue, i: int)
    requires
        0 <= i <= cs.len(),
        forall|j: int| 0 <= j < i ==> !key_match(#[trigger] cs[j].0, k),
    ensures
        find_from(cs, k, 0) == find_from(cs, k, i),
    decreases i,
{
    if i > 0 {
        lemma_find_from(cs, k, i - 1);
    }
}

/// The node at `p` under `t`: a leaf holding the bad value where there is none.
pub open spec fn find_in(t: Tree, p: Seq<RawValue>) -> Tree
    decreases p.len(),
{
    if p.len() == 0 {
        t
    } else {
        match t {
            Tree::Leaf(_) => Tree::Leaf(RawValue::Bad),
            Tree::Branch(cs, _) => {
                let i = find_from(cs, p[0], 0);
                if i < 0 {
                    Tree::Leaf(RawValue::Bad)
                } else {
                    find_in(cs[i].1, p.drop_first())
                }
            },
        }
    }
}

/// The index of the first child whose key matches `k`.
pub fn child_index(children: &Vec<Child>, k: &HoconValue) -> (r: Option<usize>)
    ensures
        r is None ==> find_from(forest_of(children@), k@, 0) == -1,
        r matches Some(i) ==> find_from(forest_of(children@), k@, 0) == i && i < children.len(),
{
    let ghost f = forest_of(children@);
    proof {
        lemma_forest_len(children@);
    }
    let mut i: usize = 0;
    while i < children.len()
        invariant
            i <= children.len(),
            f == forest_of(children@),
            f.len() == children.len(),
            forall|j: int| 0 <= j < i ==> !key_match(#[trigger] f[j].0, k@),
        decreases children.len() - i,
    {
        proof {
            lemma_forest_index(children@, i as int);
        }
        if children[i].key == *k {
            proof {
                lemma_find_from(f, k@, i as int);
            }
            return Some(i);
        }
        i = i + 1;
    }
    proof {
        lemma_find_from(f, k@, i as int);
    }
    None
}

impl Child {
    /// A copy of the node at `path` under this child's node.
    pub fn find_key(&self, path: &Vec<HoconValue>) -> (r: Node)
        ensures
            r@ == find_in(self.value@, raw_seq(path@)),
    {
        self.value.find_key(path)
    }

    /// A copy of this child that shares nothing with it.
    pub fn deep_clone(&self) -> (r: Child)
        ensures
            r.key@ == self.key@,
            r.value@ == self.value@,
    {
        Child { key: self.key.copy(), value: self.value.deep_clone() }
    }
}

pub fn deep_clone_children(children: &Vec<Child>) -> (r: Vec<Child>)
    ensures
        forest_of(r@) == forest_of(children@),
    decreases children, 0nat,
{
    let mut out: Vec<Child> = Vec::new();
    let mut i: usize = 0;
    while i < children.len()
        invariant
            i <= children.len(),
            out.len() == i,
            forall|j: int|
                0 <= j < i ==> raw_of(#[trigger] out@[j].key) == raw_of(children@[j].key) && tree_of(
                    out@[j].value,
                ) == tree_of(children@[j].value),
        decreases children.len() - i,
    {
        proof {
            assert(decreases_to!(*children => children[i as int]));
        }
        let c = Child { key: children[i].key.copy(), value: children[i].value.deep_clone() };
        out.push(c);
        i = i + 1;
    }
    proof {
        lemma_forest_ext(out@, children@);
    }
    out
}

impl Node {
    /// A copy of the whole subtree that shares nothing with it.
    pub fn deep_clone(&self) -> (r: Node)
        ensures
            r@ == self@,
        decreases self, 1nat,
    {
        match self {
            Node::Leaf(v) => Node::Leaf(v.copy()),
            Node::Node { children, key_hint } => Node::Node {
                children: deep_clone_children(children),
                key_hint: *key_hint,
            },
        }
    }

    /// A copy of the node at `path` under this one; a leaf holding the bad
    /// value where there is none.
    pub fn find_key(&self, path: &Vec<HoconValue>) -> (r: Node)
        ensures
            r@ == find_in(self@, crate::value::raw_seq(path@)),
    {
        let ghost p = crate::value::raw_seq(path@);
        proof {
            crate::value::lemma_raw_seq_len(path@);
            assert(p.subrange(0, p.len() as int) == p);
        }
        let mut cur: &Node = self;
        let mut k: usize = 0;
        while k < path.len()
            invariant
                k <= path.len(),
                p == crate::value::raw_seq(path@),
                p.len() == path.len(),
                find_in(tree_of(*self), p) == find_in(tree_of(*cur), p.subrange(k as int, p.len() as int)),
            decreases path.len() - k,
        {
            let ghost rest = p.subrange(k as int, p.len() as int);
            proof {
                crate::value::lemma_raw_seq_index(path@, k as int);
                assert(rest.drop_first() == p.subrange(k + 1, p.len() as int));
            }
            match cur {
                Node::Leaf(_) => {
                    return Node::Leaf(HoconValue::BadValue);
                }
                Node::Node { children, .. } => {
                    match child_index(children, &path[k]) {
                        None => {
                            return Node::Leaf(HoconValue::BadValue);
                        }
                        Some(i) => {
                            proof {
                                lemma_forest_index(children@, i as int);
                            }
                            cur = &children[i].value;
                        }
                    }
                }
            }
            k = k + 1;
        }
        proof {
            assert(p.subrange(k as int, p.len() as int).len() == 0);
        }
        cur.deep_clone()
    }
}

/// Whether adding a child under key `k` to children `cs` first discards
/// them: index 0 starts a new array, and the kind of the first key decides
/// whether the collection changes kind.
pub open spec fn resets(cs: Seq<(RawValue, Tree)>, k: RawValue) -> bool {
    cs.len() > 0 && (k == RawValue::Integer(0) || (cs[0].0 is Integer && k is Quoted) || (
    cs[0].0 is Quoted && k is Integer))
}

/// The tree once the path `keys` exists in it: missing nodes are leaves that
/// hold the bad value, a leaf on the way becomes a branch, and every branch
/// passed through loses its hint. Children whose key matches are reused, so
/// nested objects merge deeply, with one exception: index 0 met as the last
/// key of a path starts a new array there, and the branch keeps only a fresh
/// child at index 0, whether or not it had one (an array written again from
/// its first element replaces the old one; an element object reached through
/// index 0 with more keys after it is still merged into).
pub open spec fn grow(t: Tree, keys: Seq<RawValue>) -> Tree
    decreases keys.len(),
{
    if keys.len() == 0 {
        t
    } else {
        let k = keys[0];
        let rest = keys.drop_first();
        match t {
            Tree::Leaf(_) => Tree::Branch(seq![(k, grow(Tree::Leaf(RawValue::Bad), rest))], None),
            Tree::Branch(cs, _) => {
                let i = find_from(cs, k, 0);
                if rest.len() == 0 && cs.len() > 0 && k == RawValue::Integer(0) {
                    Tree::Branch(seq![(k, Tree::Leaf(RawValue::Bad))], None)
                } else if i >= 0 {
                    Tree::Branch(cs.update(i, (cs[i].0, grow(cs[i].1, rest))), None)
                } else {
                    let base = if resets(cs, k) {
                        Seq::empty()
                    } else {
                        cs
                    };
                    Tree::Branch(base.push((k, grow(Tree::Leaf(RawValue::Bad), rest))), None)
                }
            },
        }
    }
}

/// The tree with the node at `keys` replaced by `n`, where that node exists.
pub open spec fn put(t: Tree, keys: Seq<RawValue>, n: Tree) -> Tree
    decreases keys.len(),
{
    if keys.len() == 0 {
        n
    } else {
        match t {
            Tree::Leaf(_) => t,
            Tree::Branch(cs, h) => {
                let i = find_from(cs, keys[0], 0);
                if i >= 0 {
                    Tree::Branch(cs.update(i, (cs[i].0, put(cs[i].1, keys.drop_first(), n))), h)
                } else {
                    t
                }
            },
        }
    }
}

/// The keys that one path segment stands for when an entry is merged: an
/// unquoted text is split at its dots after trimming.
pub open spec fn segment_keys(v: RawValue) -> Seq<RawValue> {
    match v {
        RawValue::Unquoted(s) => split_dots(trim_of(s)).map_values(|p: Seq<char>| RawValue::Quoted(p)),
        _ => seq![v],
    }
}

pub open spec fn merge_keys(p: Seq<RawValue>) -> Seq<RawValue>
    decreases p.len(),
{
    if p.len() == 0 {
        Seq::empty()
    } else {
        merge_keys(p.drop_last()) + segment_keys(p.last())
    }
}

fn take_child(children: &mut Vec<Child>, i: usize) -> (r: Child)
    requires
        i < old(children).len(),
    ensures
        final(children)@ == old(children)@.remove(i as int),
        r == old(children)@[i as int],
{
    children.remove(i)
}

proof fn lemma_forest_replace(old_cs: Seq<Child>, new_cs: Seq<Child>, i: int, c: Child)
    requires
        0 <= i < old_cs.len(),
        new_cs == old_cs.remove(i).insert(i, c),
    ensures
        forest_of(new_cs) == forest_of(old_cs).update(i, (raw_of(c.key), tree_of(c.value))),
{
    lemma_forest_len(old_cs);
    assert forall|j: int| 0 <= j < new_cs.len() implies forest_of(old_cs).update(
        i,
        (raw_of(c.key), tree_of(c.value)),
    )[j] == (raw_of(#[trigger] new_cs[j].key), tree_of(new_cs[j].value)) by {
        lemma_forest_index(old_cs, j);
    }
    lemma_forest_is(new_cs, forest_of(old_cs).update(i, (raw_of(c.key), tree_of(c.value))));
}

proof fn lemma_forest_push(cs: Seq<Child>, c: Child)
    ensures
        forest_of(cs.push(c)) == forest_of(cs).push((raw_of(c.key), tree_of(c.value))),
{
    assert(cs.push(c).drop_last() == cs);
}

/// Whether adding a child under `k` discards the existing children.
fn must_reset(children: &Vec<Child>, k: &HoconValue) -> (r: bool)
    ensures
        r == resets(forest_of(children@), k@),
{
    proof {
        lemma_forest_len(children@);
    }
    if children.len() == 0 {
        return false;
    }
    proof {
        lemma_forest_index(children@, 0);
    }
    match (&children[0].key, k) {
        (_, HoconValue::Integer(0)) => true,
        (HoconValue::Integer(_), HoconValue::String(_)) => true,
        (HoconValue::String(_), HoconValue::Integer(_)) => true,
        _ => false,
    }
}

/// The node once the path `keys[pos..]` exists under it.
pub(crate) fn grow_node(node: Node, keys: &Vec<HoconValue>, pos: usize) -> (r: Node)
    requires
        pos <= keys.len(),
    ensures
        r@ == grow(node@, raw_seq(keys@).subrange(pos as int, keys.len() as int)),
    decreases keys.len() - pos,
{
    let ghost ks = raw_seq(keys@).subrange(pos as int, keys.len() as int);
    proof {
        lemma_raw_seq_len(keys@);
    }
    if pos == keys.len() {
        return node;
    }
    proof {
        lemma_raw_seq_index(keys@, pos as int);
        assert(ks.drop_first() == raw_seq(keys@).subrange(pos + 1, keys.len() as int));
    }
    match node {
        Node::Leaf(_) => {
            let below = grow_node(Node::Leaf(HoconValue::BadValue), keys, pos + 1);
            let c = Child { key: keys[pos].copy(), value: below };
            let mut children: Vec<Child> = Vec::new();
            proof {
                lemma_forest_push(children@, c);
                assert(forest_of(Seq::<Child>::empty()) =~= Seq::<(RawValue, Tree)>::empty());
            }
            children.push(c);
            Node::Node { children, key_hint: None }
        },
        Node::Node { mut children, key_hint } => {
            let ghost old_cs = children@;
            let restart = match &keys[pos] {
                HoconValue::Integer(0) => pos + 1 == keys.len() && children.len() > 0,
                _ => false,
            };
            if restart {
                let c = Child { key: keys[pos].copy(), value: Node::Leaf(HoconValue::BadValue) };
                let mut fresh: Vec<Child> = Vec::new();
                proof {
                    lemma_forest_push(fresh@, c);
                    assert(forest_of(Seq::<Child>::empty()) =~= Seq::<(RawValue, Tree)>::empty());
                    assert(ks.drop_first().len() == 0);
                    assert(Seq::<(RawValue, Tree)>::empty().push((raw_of(c.key), tree_of(c.value))) =~= seq![
                        (ks[0], Tree::Leaf(RawValue::Bad)),
                    ]);
                }
                fresh.push(c);
                return Node::Node { children: fresh, key_hint: None };
            }
            proof {
                lemma_forest_len(children@);
                assert(!(ks.drop_first().len() == 0 && forest_of(children@).len() > 0 && ks[0]
                    == RawValue::Integer(0)));
            }
            match child_index(&children, &keys[pos]) {
                Some(i) => {
                    proof {
                        lemma_forest_index(children@, i as int);
                    }
                    let c = take_child(&mut children, i);
                    let below = grow_node(c.value, keys, pos + 1);
                    let nc = Child { key: c.key, value: below };
                    children.insert(i, nc);
                    proof {
                        lemma_forest_replace(old_cs, children@, i as int, nc);
                    }
                    Node::Node { children, key_hint: None }
                },
                None => {
                    if must_reset(&children, &keys[pos]) {
                        children = Vec::new();
                        proof {
                            assert(forest_of(children@) =~= Seq::<(RawValue, Tree)>::empty());
                        }
                    }
                    let below = grow_node(Node::Leaf(HoconValue::BadValue), keys, pos + 1);
                    let c = Child { key: keys[pos].copy(), value: below };
                    proof {
                        lemma_forest_push(children@, c);
                    }
                    children.push(c);
                    Node::Node { children, key_hint: None }
                },
            }
        },
    }
}

/// The node with the node at `keys[pos..]` under it replaced by `n`.
pub(crate) fn put_node(node: Node, keys: &Vec<HoconValue>, pos: usize, n: Node) -> (r: Node)
    requires
        pos <= keys.len(),
    ensures
        r@ == put(node@, raw_seq(keys@).subrange(pos as int, keys.len() as int), n@),
    decreases keys.len() - pos,
{
    let ghost ks = raw_seq(keys@).subrange(pos as int, keys.len() as int);
    proof {
        lemma_raw_seq_len(keys@);
    }
    if pos == keys.len() {
        return n;
    }
    proof {
        lemma_raw_seq_index(keys@, pos as int);
        assert(ks.drop_first() == raw_seq(keys@).subrange(pos + 1, keys.len() as int));
    }
    match node {
        Node::Leaf(v) => Node::Leaf(v),
        Node::Node { mut children, key_hint } => {
            let ghost old_cs = children@;
            match child_index(&children, &keys[pos]) {
                Some(i) => {
                    proof {
                        lemma_forest_index(children@, i as int);
                    }
                    let c = take_child(&mut children, i);
                    let below = put_node(c.value, keys, pos + 1, n);
                    let nc = Child { key: c.key, value: below };
                    children.insert(i, nc);
                    proof {
                        lemma_forest_replace(old_cs, children@, i as int, nc);
                    }
                    Node::Node { children, key_hint }
                },
                None => Node::Node { children, key_hint },
            }
        },
    }
}

/// The keys of a path as merge reads them.
pub fn merge_path(path: &Vec<HoconValue>) -> (r: Vec<HoconValue>)
    ensures
        raw_seq(r@) == merge_keys(raw_seq(path@)),
{
    let mut out: Vec<HoconValue> = Vec::new();
    let mut i: usize = 0;
    proof {
        lemma_raw_seq_len(path@);
        assert(raw_seq(Seq::<HoconValue>::empty()) =~= Seq::<RawValue>::empty());
        assert(raw_seq(path@.take(0)) =~= Seq::<RawValue>::empty());
    }
    while i < path.len()
        invariant
            i <= path.len(),
            raw_seq(out@) == merge_keys(raw_seq(path@.take(i as int))),
        decreases path.len() - i,
    {
        let ghost before = out@;
        match &path[i] {
            HoconValue::UnquotedString(s) => {
                let parts = split_on_dots(&trim(&chars_of(s.as_str())));
                let ghost want = split_dots(trim_of(s@)).map_values(|p: Seq<char>| RawValue::Quoted(p));
                let mut k: usize = 0;
                while k < parts.len()
                    invariant
                        k <= parts.len(),
                        parts@.len() == split_dots(trim_of(s@)).len(),
                        forall|j: int| 0 <= j < parts@.len() ==> (#[trigger] parts@[j])@ == split_dots(trim_of(s@))[j],
                        want == split_dots(trim_of(s@)).map_values(|p: Seq<char>| RawValue::Quoted(p)),
                        raw_seq(out@) == raw_seq(before) + want.take(k as int),
                    decreases parts.len() - k,
                {
                    let seg = HoconValue::String(string_of(&parts[k]));
                    proof {
                        lemma_raw_seq_push(out@, seg);
                        assert(want.take(k + 1) =~= want.take(k as int).push(raw_of(seg)));
                    }
                    out.push(seg);
                    k = k + 1;
                }
                proof {
                    assert(want.take(k as int) =~= want);
                }
            },
            _ => {
                let seg = path[i].copy();
                proof {
                    lemma_raw_seq_push(out@, seg);
                }
                out.push(seg);
            },
        }
        proof {
            assert(path@.take(i + 1) == path@.take(i as int).push(path@[i as int]));
            lemma_raw_seq_push(path@.take(i as int), path@[i as int]);
            assert(raw_seq(path@.take(i + 1)).drop_last() == raw_seq(path@.take(i as int)));
        }
        i = i + 1;
    }
    proof {
        assert(path@.take(path.len() as int) == path@);
    }
    out
}

} // verus!
