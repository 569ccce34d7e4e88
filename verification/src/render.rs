//! Writing a tree out as text, for diagnosis: one line for each occupied
//! slot, the lines of a child below the line of its slot and one tab further
//! in.

use crate::label::Label;
use crate::tree::{BTree, TreeItem};
use vstd::prelude::*;
use vstd::string::StringExecFns;

verus! {

/// A row of `n` tabs.
pub open spec fn tabs(n: nat) -> Seq<char> {
    Seq::new(n, |i: int| '\t')
}

/// The text for the key of a slot: the label of the key, or `None` for a
/// slot without a key.
pub open spec fn key_label<K: Label>(key: Option<K>) -> Seq<char> {
    match key {
        Some(k) => k.label(),
        None => "None"@,
    }
}

/// Whether one of the first `n` places of a row is occupied.
pub open spec fn any_occupied<T>(items: Seq<Option<T>>, n: nat) -> bool
    decreases n,
{
    n > 0 && (items[n - 1] is Some || any_occupied(items, (n - 1) as nat))
}

impl<K: Label, V> BTree<K, V> {
    /// The key that is written beside slot `i`: key `i`, where it is in use.
    pub open spec fn shown_key(&self, i: int) -> Option<K> {
        if 0 <= i < self.spec_len() && i < self.spec_keys().len() {
            self.spec_keys()[i]
        } else {
            None
        }
    }

    /// The text for the first `n` slots of this node. Each occupied slot
    /// gives a line that starts with `prefix`: `Leaf(key=..)` for a value,
    /// `Node(key=..)` for a child, followed by the text for the child on the
    /// lines below, with one tab more before each line. The lines are
    /// separated by line feeds.
    pub open spec fn rendering_upto(&self, prefix: Seq<char>, n: nat) -> Seq<char>
        decreases self, n,
    {
        if n == 0 || n > self.spec_items().len() {
            Seq::empty()
        } else {
            let i = n - 1;
            let before = self.rendering_upto(prefix, i as nat);
            match self.spec_items()[i] {
                None => before,
                Some(item) => {
                    let joined = if any_occupied(self.spec_items(), i as nat) {
                        before + "\n"@
                    } else {
                        before
                    };
                    match item {
                        TreeItem::TreeNode { value } => joined + prefix + "Node(key="@ + key_label(
                            self.shown_key(i),
                        ) + ")\n"@ + value.rendering_upto(
                            prefix + "\t"@,
                            value.spec_items().len(),
                        ),
                        TreeItem::TreeLeaf { .. } => joined + prefix + "Leaf(key="@ + key_label(
                            self.shown_key(i),
                        ) + ")"@,
                    }
                },
            }
        }
    }

    /// The text for this node and what is below it, each line behind
    /// `prefix`.
    pub open spec fn rendering(&self, prefix: Seq<char>) -> Seq<char> {
        self.rendering_upto(prefix, self.spec_items().len())
    }

    /// Write the tree out as text.
    pub fn to_str(&self) -> (out: String)
        ensures
            out@ == self.rendering(Seq::empty()),
    {
        let out = to_str(self, 0);
        proof {
            assert(tabs(0) =~= Seq::<char>::empty());
        }
        out
    }
}

/// Write the subtree below `tree` out as text, each line behind `prefix`.
pub fn render<K: Label, V>(tree: &BTree<K, V>, prefix: &str) -> (out: String)
    ensures
        out@ == tree.rendering(prefix@),
    decreases tree,
{
    let mut out = String::new();
    let mut any = false;
    let mut i: usize = 0;
    while i < tree.nodes.len()
        invariant
            i <= tree.nodes@.len(),
            out@ == tree.rendering_upto(prefix@, i as nat),
            any == any_occupied(tree.nodes@, i as nat),
        decreases tree.nodes@.len() - i,
    {
        match &tree.nodes[i] {
            None => {},
            Some(item) => {
                if any {
                    out.append("\n");
                }
                out.append(prefix);
                let key_text = if i < tree.used && i < tree.keys.len() {
                    match &tree.keys[i] {
                        Some(k) => k.to_label(),
                        None => String::from_str("None"),
                    }
                } else {
                    String::from_str("None")
                };
                match item {
                    TreeItem::TreeNode { value } => {
                        out.append("Node(key=");
                        out.append(key_text.as_str());
                        out.append(")\n");
                        let mut deeper = String::from_str(prefix);
                        deeper.append("\t");
                        let below = render(&**value, deeper.as_str());
                        out.append(below.as_str());
                    },
                    TreeItem::TreeLeaf { .. } => {
                        out.append("Leaf(key=");
                        out.append(key_text.as_str());
                        out.append(")");
                    },
                }
                any = true;
            },
        }
        i += 1;
    }
    out
}

/// Write the subtree below `tree` out as text, each line behind `indent`
/// tabs.
pub fn to_str<K: Label, V>(tree: &BTree<K, V>, indent: usize) -> (out: String)
    ensures
        out@ == tree.rendering(tabs(indent as nat)),
{
    let mut prefix = String::new();
    let mut i: usize = 0;
    proof {
        reveal_strlit("\t");
    }
    while i < indent
        invariant
            i <= indent,
            prefix@ == tabs(i as nat),
            "\t"@ == seq!['\t'],
        decreases indent - i,
    {
        prefix.append("\t");
        i += 1;
    }
    render(tree, prefix.as_str())
}

} // verus!
