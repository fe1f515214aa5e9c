use vstd::prelude::*;

use crate::entries::{entries_view, entry_view, lemma_entries_view_push, HoconInternal, RawEntry};
use crate::substitute::subst_of;
use crate::tree::{forest_of, grow, grow_node, merge_keys, merge_path, put, put_node, Child, Node, Tree};
use crate::value::{raw_seq, RawValue};

verus! {

/// The tree after one more entry: its path is made to exist, and the value,
/// resolved against the tree as it then stands, is stored there.
pub open spec fn merge_entry(t: Tree, e: RawEntry) -> Tree {
    let keys = merge_keys(e.0);
    let g = grow(t, keys);
    put(g, keys, subst_of(e.1, g, e.0))
}

/// The tree that the entries build, in order, from an empty root.
pub open spec fn merged(es: Seq<RawEntry>) -> Tree
    decreases es.len(),
{
    if es.len() == 0 {
        Tree::Branch(Seq::empty(), None)
    } else {
        merge_entry(merged(es.drop_last()), es.last())
    }
}

/// The document tree once every entry is merged, before the second pass.
#[derive(Debug)]
pub struct HoconIntermediate {
    pub tree: Node,
}

impl HoconInternal {
    /// Merges the entries in order into one tree.
    pub fn merge(self) -> (r: Result<HoconIntermediate, ()>)
        ensures
            r matches Ok(m) && m.tree@ == merged(self@),
    {
        let mut root = Node::Node { children: Vec::new(), key_hint: None };
        proof {
            assert(forest_of(Seq::<Child>::empty()) =~= Seq::<(RawValue, Tree)>::empty());
            assert(entries_view(self.internal@.take(0)) =~= Seq::<RawEntry>::empty());
        }
        let mut i: usize = 0;
        while i < self.internal.len()
            invariant
                i <= self.internal.len(),
                root@ == merged(entries_view(self.internal@.take(i as int))),
            decreases self.internal.len() - i,
        {
            let keys = merge_path(&self.internal[i].0);
            let grown = grow_node(root, &keys, 0);
            let value = self.internal[i].1.substitute(&grown, &self.internal[i].0);
            root = put_node(grown, &keys, 0, value);
            proof {
                crate::value::lemma_raw_seq_len(keys@);
                assert(raw_seq(keys@).subrange(0, keys.len() as int) == raw_seq(keys@));
                assert(self.internal@.take(i + 1) == self.internal@.take(i as int).push(self.internal@[i as int]));
                lemma_entries_view_push(self.internal@.take(i as int), self.internal@[i as int]);
                let es = entries_view(self.internal@.take(i + 1));
                assert(es.drop_last() == entries_view(self.internal@.take(i as int)));
                assert(es.last() == entry_view(self.internal@[i as int]));
            }
            i = i + 1;
        }
        proof {
            assert(self.internal@.take(self.internal.len() as int) == self.internal@);
        }
        Ok(HoconIntermediate { tree: root })
    }
}

} // verus!
