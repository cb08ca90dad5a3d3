//! The mathematical model of directory trees and of the differences between them.

use crate::names::{
    lemma_lookup, lemma_lookup_at, lemma_lookup_ext, lemma_lookup_none, lemma_lookup_placed,
    lemma_name_key_injective, lookup, names_of,
};
use crate::order::{
    index_of, item_at, lemma_filter_sorted, lemma_index_of_unique, lemma_item_at_index,
    lemma_item_at_last, lemma_precedes_irreflexive, lemma_same_keys_sorted, placed, precedes,
    sorted, Key,
};
use vstd::prelude::*;
use vstd::utf8::encode_utf8;

verus! {

/// What a name in a tree stands for: a file, given by the bytes of its identifier, or a
/// nested tree.
pub enum Node {
    File(Seq<u8>),
    Directory(Seq<(Seq<char>, Node)>),
}

/// A tree: named nodes, in the order of their names.
pub type Tree = Seq<(Seq<char>, Node)>;

/// How a name that both trees hold has changed: to a file, or within a directory.
pub enum Change {
    File(Seq<u8>),
    Directory(Delta),
}

/// The difference between two trees.
pub struct Delta {
    /// The names that only the left tree holds.
    pub deleted: Seq<Seq<char>>,
    /// What only the right tree holds.
    pub added: Tree,
    /// The names that both hold with different content.
    pub modified: Seq<(Seq<char>, Change)>,
}

/// The names of a tree rise strictly, on every level.
pub open spec fn tree_wf(t: Tree) -> bool
    decreases t,
{
    &&& sorted(t)
    &&& forall|i: int| 0 <= i < t.len() ==> node_wf(#[trigger] t[i].1)
}

/// A node is a file, or a directory whose tree is well formed.
pub open spec fn node_wf(n: Node) -> bool
    decreases n,
{
    match n {
        Node::File(_) => true,
        Node::Directory(t) => tree_wf(t),
    }
}

/// The names of a difference rise strictly in each of its parts, on every level.
pub open spec fn delta_wf(d: Delta) -> bool
    decreases d,
{
    &&& sorted(d.deleted)
    &&& tree_wf(d.added)
    &&& sorted(d.modified)
    &&& forall|i: int| 0 <= i < d.modified.len() ==> change_wf(#[trigger] d.modified[i].1)
}

/// A change is to a file, or a well-formed difference within a directory.
pub open spec fn change_wf(c: Change) -> bool
    decreases c,
{
    match c {
        Change::File(_) => true,
        Change::Directory(d) => delta_wf(d),
    }
}

/// The difference that has no part.
pub open spec fn no_delta() -> Delta {
    Delta { deleted: Seq::empty(), added: Seq::empty(), modified: Seq::empty() }
}

/// The entries of `x` whose names `y` does not hold, in their order.
pub open spec fn absent_from(x: Tree, y: Tree) -> Tree {
    x.filter(|e: (Seq<char>, Node)| lookup(y, e.0) is None)
}

/// How a node differs from the node of the same name on the other side, if it does. Files
/// differ by their identifiers; directories by their trees, level by level; a file that
/// became a directory is a directory all of whose entries were added, and a directory that
/// became a file is that file.
pub open spec fn node_diff(a: Node, b: Node) -> Option<Change>
    decreases a, 0nat,
{
    match (a, b) {
        (Node::File(x), Node::File(y)) => if x != y {
            Some(Change::File(y))
        } else {
            None
        },
        (Node::Directory(_), Node::File(y)) => Some(Change::File(y)),
        (Node::File(_), Node::Directory(t)) => Some(
            Change::Directory(Delta { deleted: Seq::empty(), added: t, modified: Seq::empty() }),
        ),
        (Node::Directory(s), Node::Directory(t)) => if s == t {
            None
        } else {
            Some(Change::Directory(tree_diff(s, t)))
        },
    }
}

/// The changes among the first `n` entries of `a`: each name that `b` holds too, with a
/// node that differs.
pub open spec fn changed(a: Tree, b: Tree, n: nat) -> Seq<(Seq<char>, Change)>
    decreases a, n,
{
    if n == 0 || n > a.len() {
        Seq::empty()
    } else {
        let rest = changed(a, b, (n - 1) as nat);
        match lookup(b, a[n - 1].0) {
            Some(y) => match node_diff(a[n - 1].1, y) {
                Some(c) => rest.push((a[n - 1].0, c)),
                None => rest,
            },
            None => rest,
        }
    }
}

/// The difference between a left tree `a` and a right tree `b`.
pub open spec fn tree_diff(a: Tree, b: Tree) -> Delta
    decreases a, a.len() + 1,
{
    Delta {
        deleted: names_of(absent_from(a, b)),
        added: absent_from(b, a),
        modified: changed(a, b, a.len()),
    }
}

/// The entries that one tree holds and the other does not are in order, and each is found
/// under its name as in the tree it comes from.
pub proof fn lemma_absent_from(x: Tree, y: Tree)
    requires
        sorted(x),
    ensures
        sorted(absent_from(x, y)),
        tree_wf(x) ==> tree_wf(absent_from(x, y)),
        forall|name: Seq<char>|
            #[trigger] lookup(absent_from(x, y), name) == if lookup(y, name) is None {
                lookup(x, name)
            } else {
                None
            },
{
    let keep = |e: (Seq<char>, Node)| lookup(y, e.0) is None;
    let f = absent_from(x, y);
    lemma_filter_sorted(x, keep);
    assert forall|name: Seq<char>|
        #[trigger] lookup(f, name) == if lookup(y, name) is None {
            lookup(x, name)
        } else {
            None
        } by {
        let k = encode_utf8(name);
        assert(item_at(f, k) == match item_at(x, k) {
            Some(e) => if keep(e) {
                Some(e)
            } else {
                None
            },
            None => None,
        });
        if item_at(x, k) is Some {
            let e = item_at(x, k)->0;
            lemma_name_key_injective(e.0, name);
        }
    }
    if tree_wf(x) {
        assert forall|i: int| 0 <= i < f.len() implies node_wf(#[trigger] f[i].1) by {
            lemma_item_at_index(f, i);
            let k = f[i].key();
            assert(item_at(f, k) == match item_at(x, k) {
                Some(e) => if keep(e) {
                    Some(e)
                } else {
                    None
                },
                None => None,
            });
            let j = index_of(x, k)->0;
            assert(x[j] == f[i]);
            assert(node_wf(x[j].1));
        }
    }
}

/// The changes among the first `n` entries of a tree are in order; each stands under the
/// name of the entry it comes from, and says how that entry differs from the other side.
pub proof fn lemma_changed(a: Tree, b: Tree, n: nat)
    requires
        sorted(a),
        n <= a.len(),
    ensures
        sorted(changed(a, b, n)),
        forall|name: Seq<char>|
            #[trigger] lookup(changed(a, b, n), name) == match index_of(a, encode_utf8(name)) {
                Some(i) => if i < n {
                    match lookup(b, name) {
                        Some(y) => node_diff(a[i].1, y),
                        None => None,
                    }
                } else {
                    None
                },
                None => None,
            },
    decreases n,
{
    let c = changed(a, b, n);
    if n == 0 {
        assert forall|name: Seq<char>| #[trigger] lookup(c, name) is None by {}
    } else {
        let rest = changed(a, b, (n - 1) as nat);
        lemma_changed(a, b, (n - 1) as nat);
        let e = a[n - 1];
        let step: Option<Change> = match lookup(b, e.0) {
            Some(y) => node_diff(e.1, y),
            None => None,
        };
        lemma_index_of_unique(a, n - 1);
        // every name among the earlier changes comes before the name of this entry
        assert forall|i: int| 0 <= i < rest.len() implies precedes(
            #[trigger] rest[i].key(),
            e.key(),
        ) by {
            lemma_item_at_index(rest, i);
            let nm = rest[i].0;
            assert(lookup(rest, nm) is Some);
            let j = index_of(a, encode_utf8(nm))->0;
            assert(j < n - 1);
            assert(a[j].key() == rest[i].key());
            assert(precedes(a[j].key(), a[n - 1].key()));
        }
        match step {
            Some(ch) => {
                assert(c == rest.push((e.0, ch)));
                assert forall|i: int, j: int| 0 <= i < j < c.len() implies precedes(
                    #[trigger] c[i].key(),
                    #[trigger] c[j].key(),
                ) by {
                    if j < rest.len() {
                        assert(c[i] == rest[i] && c[j] == rest[j]);
                    } else {
                        assert(c[i] == rest[i]);
                    }
                }
                assert(c.drop_last() =~= rest);
            },
            None => {
                assert(c == rest);
            },
        }
        assert forall|name: Seq<char>|
            #[trigger] lookup(c, name) == match index_of(a, encode_utf8(name)) {
                Some(i) => if i < n {
                    match lookup(b, name) {
                        Some(y) => node_diff(a[i].1, y),
                        None => None,
                    }
                } else {
                    None
                },
                None => None,
            } by {
            let k = encode_utf8(name);
            lemma_name_key_injective(e.0, name);
            assert(lookup(rest, name) == match index_of(a, k) {
                Some(i) => if i < n - 1 {
                    match lookup(b, name) {
                        Some(y) => node_diff(a[i].1, y),
                        None => None,
                    }
                } else {
                    None
                },
                None => None,
            });
            if step is Some {
                lemma_item_at_last(c, k);
            }
            if name == e.0 {
                assert(index_of(a, k) == Some(n - 1));
                if lookup(rest, name) is Some {
                    let i = index_of(rest, k)->0;
                    assert(precedes(rest[i].key(), e.key()));
                    lemma_precedes_irreflexive(k);
                }
            } else {
                if index_of(a, k) == Some(n - 1) {
                    assert(a[n - 1].key() == k);
                }
            }
        }
    }
}

/// A change between well-formed nodes is well formed.
pub proof fn lemma_node_diff_wf(a: Node, b: Node)
    requires
        node_wf(a),
        node_wf(b),
    ensures
        node_diff(a, b) matches Some(c) ==> change_wf(c),
    decreases a, 0nat,
{
    match (a, b) {
        (Node::Directory(s), Node::Directory(t)) => {
            if s != t {
                lemma_tree_diff_wf(s, t);
            }
        },
        (Node::File(_), Node::Directory(t)) => {
            let d = Delta { deleted: Seq::empty(), added: t, modified: Seq::empty() };
            assert(delta_wf(d));
        },
        _ => {},
    }
}

/// The changes among the entries of well-formed trees are well formed.
pub proof fn lemma_changed_wf(a: Tree, b: Tree, n: nat)
    requires
        tree_wf(a),
        tree_wf(b),
        n <= a.len(),
    ensures
        forall|i: int|
            0 <= i < changed(a, b, n).len() ==> change_wf(#[trigger] changed(a, b, n)[i].1),
    decreases a, n,
{
    if n > 0 {
        lemma_changed_wf(a, b, (n - 1) as nat);
        let rest = changed(a, b, (n - 1) as nat);
        let c = changed(a, b, n);
        match lookup(b, a[n - 1].0) {
            Some(y) => {
                let j = index_of(b, encode_utf8(a[n - 1].0))->0;
                assert(node_wf(b[j].1));
                assert(node_wf(a[n - 1].1));
                lemma_node_diff_wf(a[n - 1].1, y);
                assert forall|i: int| 0 <= i < c.len() implies change_wf(#[trigger] c[i].1) by {
                    if i < rest.len() {
                        assert(c[i] == rest[i]);
                    }
                }
            },
            None => {},
        }
    }
}

/// The difference between two well-formed trees is well formed.
pub proof fn lemma_tree_diff_wf(a: Tree, b: Tree)
    requires
        tree_wf(a),
        tree_wf(b),
    ensures
        delta_wf(tree_diff(a, b)),
    decreases a, a.len() + 1,
{
    lemma_absent_from(a, b);
    lemma_absent_from(b, a);
    lemma_changed(a, b, a.len());
    lemma_changed_wf(a, b, a.len());
    let gone = absent_from(a, b);
    assert forall|i: int| 0 <= i < gone.len() implies #[trigger] gone[i].key() == names_of(
        gone,
    )[i].key() by {}
    lemma_same_keys_sorted(gone, names_of(gone));
}

/// What each part of a difference holds under a name, in terms of what the two trees hold
/// under it. A name is deleted when only the left tree holds it, added (with the right
/// tree's node) when only the right tree holds it, and modified when both hold it with nodes
/// that differ; so it stands in at most one part, and in none where the nodes are equal.
pub proof fn lemma_diff_parts(a: Tree, b: Tree, name: Seq<char>)
    requires
        sorted(a),
        sorted(b),
    ensures
        tree_diff(a, b).deleted.contains(name) <==> lookup(a, name) is Some && lookup(b, name)
            is None,
        lookup(tree_diff(a, b).added, name) == if lookup(a, name) is None {
            lookup(b, name)
        } else {
            None
        },
        lookup(tree_diff(a, b).modified, name) == match (lookup(a, name), lookup(b, name)) {
            (Some(x), Some(y)) => node_diff(x, y),
            _ => None,
        },
{
    lemma_absent_from(a, b);
    lemma_absent_from(b, a);
    lemma_changed(a, b, a.len());
    let gone = absent_from(a, b);
    let names = names_of(gone);
    assert(lookup(gone, name) == if lookup(b, name) is None {
        lookup(a, name)
    } else {
        None
    });
    lemma_lookup(gone, name);
    if names.contains(name) {
        let i = choose|i: int| 0 <= i < names.len() && names[i] == name;
        assert(gone[i].0 == name);
        lemma_lookup_at(gone, i);
    }
    if lookup(gone, name) is Some {
        let i = index_of(gone, encode_utf8(name))->0;
        assert(names[i] == name);
    }
    lemma_lookup(a, name);
}

/// A tree does not differ from itself.
pub proof fn lemma_diff_identity(t: Tree)
    requires
        sorted(t),
    ensures
        tree_diff(t, t) == no_delta(),
{
    let d = tree_diff(t, t);
    lemma_absent_from(t, t);
    lemma_changed(t, t, t.len());
    assert forall|name: Seq<char>| lookup(d.added, name) is None by {
        assert(lookup(absent_from(t, t), name) == if lookup(t, name) is None {
            lookup(t, name)
        } else {
            None
        });
    }
    lemma_lookup_none(d.added);
    assert forall|name: Seq<char>| lookup(d.modified, name) is None by {
        lemma_diff_parts(t, t, name);
    }
    lemma_lookup_none(d.modified);
    assert(d.deleted =~= Seq::<Seq<char>>::empty());
}

/// Nodes that do not differ are the same node.
pub proof fn lemma_node_diff_none(a: Node, b: Node)
    ensures
        node_diff(a, b) is None <==> a == b,
{
}

/// Two trees have the empty difference exactly when they are the same tree.
pub proof fn lemma_diff_empty_only_of_same(a: Tree, b: Tree)
    requires
        sorted(a),
        sorted(b),
    ensures
        tree_diff(a, b) == no_delta() <==> a == b,
{
    if a == b {
        lemma_diff_identity(a);
    }
    if tree_diff(a, b) == no_delta() {
        assert forall|name: Seq<char>| lookup(a, name) == lookup(b, name) by {
            lemma_diff_parts(a, b, name);
            let d = tree_diff(a, b);
            assert(!d.deleted.contains(name));
            assert(lookup(d.added, name) is None);
            assert(lookup(d.modified, name) is None);
            match (lookup(a, name), lookup(b, name)) {
                (Some(x), Some(y)) => {
                    lemma_node_diff_none(x, y);
                },
                _ => {},
            }
        }
        lemma_lookup_ext(a, b);
    }
}

/// The names deleted from `a` to `b` are the names of what is added from
/// `b` to `a`.
pub proof fn lemma_diff_asymmetry(a: Tree, b: Tree)
    ensures
        tree_diff(a, b).deleted == names_of(tree_diff(b, a).added),
{
}

/// A tree that gains one entry under a new name, and is otherwise
/// unchanged on every level, differs by exactly that one added entry.
pub proof fn lemma_diff_added_entry(a: Tree, name: Seq<char>, node: Node)
    requires
        sorted(a),
        lookup(a, name) is None,
    ensures
        tree_diff(a, placed(a, (name, node))) == (Delta {
            deleted: Seq::empty(),
            added: seq![(name, node)],
            modified: Seq::empty(),
        }),
{
    let b = placed(a, (name, node));
    let d = tree_diff(a, b);
    let one: Tree = seq![(name, node)];
    assert forall|n: Seq<char>| #[trigger] lookup(b, n) == if n == name {
        Some(node)
    } else {
        lookup(a, n)
    } by {
        lemma_lookup_placed(a, (name, node), n);
    }
    lemma_lookup_placed(a, (name, node), name);
    lemma_absent_from(a, b);
    lemma_absent_from(b, a);
    lemma_changed(a, b, a.len());
    assert forall|n: Seq<char>| lookup(absent_from(a, b), n) is None by {
        assert(lookup(absent_from(a, b), n) == if lookup(b, n) is None {
            lookup(a, n)
        } else {
            None
        });
    }
    lemma_lookup_none(absent_from(a, b));
    assert(d.deleted =~= Seq::<Seq<char>>::empty());
    assert forall|n: Seq<char>| lookup(d.modified, n) is None by {
        lemma_diff_parts(a, b, n);
    }
    lemma_lookup_none(d.modified);
    assert(sorted(one));
    assert forall|n: Seq<char>| lookup(d.added, n) == lookup(one, n) by {
        lemma_diff_parts(a, b, n);
        lemma_lookup_at(one, 0);
        lemma_lookup(one, n);
    }
    lemma_lookup_ext(d.added, one);
}

/// Where a file gave way to a directory of the same name, the name is
/// modified, and the change is a directory all of whose entries were added.
pub proof fn lemma_diff_type_change(a: Tree, b: Tree, name: Seq<char>)
    requires
        sorted(a),
        sorted(b),
        lookup(a, name) matches Some(Node::File(_)),
        lookup(b, name) matches Some(Node::Directory(_)),
    ensures
        lookup(tree_diff(a, b).modified, name) == Some(
            Change::Directory(
                Delta {
                    deleted: Seq::empty(),
                    added: lookup(b, name)->0->Directory_0,
                    modified: Seq::empty(),
                },
            ),
        ),
        !tree_diff(a, b).deleted.contains(name),
        lookup(tree_diff(a, b).added, name) is None,
{
    lemma_diff_parts(a, b, name);
}

} // verus!
