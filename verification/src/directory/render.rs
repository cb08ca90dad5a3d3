//! The text of a difference: one line for each changed path.

use crate::directory::{Diff, DiffEntry, Directory, DirectoryEntry};
use crate::names::NameSet;
use crate::tree::{no_delta, Change, Delta, Node, Tree};
use vstd::prelude::*;
use vstd::string::StringExecFns;

verus! {

/// One line: a tag, a space, the path, and a line feed.
pub open spec fn line(tag: char, path: Seq<char>) -> Seq<char> {
    seq![tag, ' '] + path + seq!['\n']
}

/// The lines for a node that was added at `path`: one `A` line for a file or an empty
/// directory, and for any other directory the lines of its entries.
pub open spec fn added_text(path: Seq<char>, sep: Seq<char>, node: Node) -> Seq<char>
    decreases node, 0nat,
{
    match node {
        Node::File(_) => line('A', path),
        Node::Directory(t) => (if t.len() == 0 {
            line('A', path)
        } else {
            Seq::empty()
        }) + tree_text(path + sep, sep, t, t.len()),
    }
}

/// The lines for the first `n` entries of an added tree; the path of an entry is `prefix`
/// followed by its name.
pub open spec fn tree_text(prefix: Seq<char>, sep: Seq<char>, t: Tree, n: nat) -> Seq<char>
    decreases t, n,
{
    if n == 0 || n > t.len() {
        Seq::empty()
    } else {
        tree_text(prefix, sep, t, (n - 1) as nat) + added_text(
            prefix + t[n - 1].0,
            sep,
            t[n - 1].1,
        )
    }
}

/// The lines for the first `n` deleted names: a `D` line each.
pub open spec fn deleted_text(prefix: Seq<char>, names: Seq<Seq<char>>, n: nat) -> Seq<char>
    decreases n,
{
    if n == 0 || n > names.len() {
        Seq::empty()
    } else {
        deleted_text(prefix, names, (n - 1) as nat) + line('D', prefix + names[n - 1])
    }
}

/// The lines for a change at `path`: one `M` line for a file; for a directory the lines of
/// the difference within it, or one `M` line where that difference has no part.
pub open spec fn change_text(path: Seq<char>, sep: Seq<char>, c: Change) -> Seq<char>
    decreases c, 0nat,
{
    match c {
        Change::File(_) => line('M', path),
        Change::Directory(d) => if d == no_delta() {
            line('M', path)
        } else {
            delta_text(path + sep, sep, d)
        },
    }
}

/// The lines for the first `n` changes.
pub open spec fn changes_text(
    prefix: Seq<char>,
    sep: Seq<char>,
    m: Seq<(Seq<char>, Change)>,
    n: nat,
) -> Seq<char>
    decreases m, n,
{
    if n == 0 || n > m.len() {
        Seq::empty()
    } else {
        changes_text(prefix, sep, m, (n - 1) as nat) + change_text(
            prefix + m[n - 1].0,
            sep,
            m[n - 1].1,
        )
    }
}

/// The lines for a difference: what was added, then what was modified, then what was
/// deleted, each part in the order of its names.
pub open spec fn delta_text(prefix: Seq<char>, sep: Seq<char>, d: Delta) -> Seq<char>
    decreases d, 0nat,
{
    tree_text(prefix, sep, d.added, d.added.len()) + changes_text(
        prefix,
        sep,
        d.modified,
        d.modified.len(),
    ) + deleted_text(prefix, d.deleted, d.deleted.len())
}

/// What was added renders as at least one line.
pub proof fn lemma_added_text(path: Seq<char>, sep: Seq<char>, node: Node)
    ensures
        added_text(path, sep, node).len() > 0,
    decreases node, 0nat,
{
    match node {
        Node::File(_) => {},
        Node::Directory(t) => {
            if t.len() > 0 {
                lemma_added_text(path + sep + t[t.len() - 1].0, sep, t[t.len() - 1].1);
            }
        },
    }
}

/// A change renders as at least one line.
pub proof fn lemma_change_text(path: Seq<char>, sep: Seq<char>, c: Change)
    ensures
        change_text(path, sep, c).len() > 0,
    decreases c, 0nat,
{
    match c {
        Change::File(_) => {},
        Change::Directory(d) => {
            if d != no_delta() {
                lemma_delta_text(path + sep, sep, d);
            }
        },
    }
}

/// A difference that has a part renders as at least one line.
pub proof fn lemma_delta_text(prefix: Seq<char>, sep: Seq<char>, d: Delta)
    requires
        d != no_delta(),
    ensures
        delta_text(prefix, sep, d).len() > 0,
    decreases d, 0nat,
{
    if d.added.len() > 0 {
        let n = d.added.len();
        lemma_added_text(prefix + d.added[n - 1].0, sep, d.added[n - 1].1);
    } else if d.modified.len() > 0 {
        let n = d.modified.len();
        lemma_change_text(prefix + d.modified[n - 1].0, sep, d.modified[n - 1].1);
    } else if d.deleted.len() > 0 {
    } else {
        assert(d.added =~= no_delta().added);
        assert(d.modified =~= no_delta().modified);
        assert(d.deleted =~= no_delta().deleted);
    }
}

/// Two trees that are not the same differ by at least one line.
pub proof fn lemma_different_trees_render(a: Tree, b: Tree, sep: Seq<char>)
    requires
        crate::order::sorted(a),
        crate::order::sorted(b),
        a != b,
    ensures
        delta_text(Seq::empty(), sep, crate::tree::tree_diff(a, b)).len() > 0,
{
    crate::tree::lemma_diff_empty_only_of_same(a, b);
    lemma_delta_text(Seq::empty(), sep, crate::tree::tree_diff(a, b));
}

/// Appends one line to the text.
fn put_line(out: &mut String, tag: char, path: &str)
    requires
        tag == 'A' || tag == 'M' || tag == 'D',
    ensures
        final(out)@ == old(out)@ + line(tag, path@),
{
    proof {
        reveal_strlit("A ");
        reveal_strlit("M ");
        reveal_strlit("D ");
        reveal_strlit("\n");
    }
    let ghost before = out@;
    let lead = if tag == 'A' {
        "A "
    } else if tag == 'M' {
        "M "
    } else {
        "D "
    };
    assert(lead@ =~= seq![tag, ' ']);
    out.append(lead);
    out.append(path);
    out.append("\n");
    proof {
        assert("\n"@ =~= seq!['\n']);
        assert(out@ =~= before + line(tag, path@));
    }
}

/// The text of two pieces of a path, one after the other.
fn joined(a: &str, b: &str) -> (r: String)
    ensures
        r@ == a@ + b@,
{
    let mut r = String::from_str(a);
    r.append(b);
    r
}

/// Appends the lines for an entry that was added at `path`.
fn put_added(out: &mut String, path: &str, sep: &str, entry: &DirectoryEntry)
    ensures
        final(out)@ == old(out)@ + added_text(path@, sep@, entry@),
    decreases entry,
{
    let ghost before = out@;
    match entry {
        DirectoryEntry::File(_) => {
            put_line(out, 'A', path);
        },
        DirectoryEntry::Directory(d) => {
            if (**d).is_empty() {
                put_line(out, 'A', path);
            }
            let ghost mid = out@;
            let prefix = joined(path, sep);
            put_tree(out, prefix.as_str(), sep, &**d);
            proof {
                let t = d@;
                assert(out@ =~= before + added_text(path@, sep@, entry@));
            }
        },
    }
}

/// Appends the lines for the entries of an added directory.
fn put_tree(out: &mut String, prefix: &str, sep: &str, dir: &Directory)
    ensures
        final(out)@ == old(out)@ + tree_text(prefix@, sep@, dir@, dir@.len()),
    decreases dir,
{
    let ghost before = out@;
    let n = dir.len();
    let mut i: usize = 0;
    proof {
        assert(out@ =~= before + tree_text(prefix@, sep@, dir@, 0));
    }
    while i < n
        invariant
            n == dir@.len(),
            i <= n,
            out@ == before + tree_text(prefix@, sep@, dir@, i as nat),
        decreases n - i,
    {
        let ghost so_far = out@;
        let path = joined(prefix, dir.name_at(i).as_str());
        put_added(out, path.as_str(), sep, dir.entry_at(i));
        proof {
            assert(out@ =~= before + tree_text(prefix@, sep@, dir@, (i + 1) as nat));
        }
        i += 1;
    }
}

/// Appends a `D` line for each deleted name.
fn put_deleted(out: &mut String, prefix: &str, names: &NameSet)
    ensures
        final(out)@ == old(out)@ + deleted_text(prefix@, names@, names@.len()),
{
    let ghost before = out@;
    let n = names.len();
    let mut i: usize = 0;
    proof {
        assert(out@ =~= before + deleted_text(prefix@, names@, 0));
    }
    while i < n
        invariant
            n == names@.len(),
            i <= n,
            out@ == before + deleted_text(prefix@, names@, i as nat),
        decreases n - i,
    {
        let path = joined(prefix, names.get(i).as_str());
        put_line(out, 'D', path.as_str());
        proof {
            assert(out@ =~= before + deleted_text(prefix@, names@, (i + 1) as nat));
        }
        i += 1;
    }
}

/// Appends the lines for a change at `path`.
fn put_change(out: &mut String, path: &str, sep: &str, change: &DiffEntry)
    ensures
        final(out)@ == old(out)@ + change_text(path@, sep@, change@),
    decreases change,
{
    match change {
        DiffEntry::File(_) => {
            put_line(out, 'M', path);
        },
        DiffEntry::Directory(d) => {
            if (**d).is_empty() {
                put_line(out, 'M', path);
            } else {
                let prefix = joined(path, sep);
                put_delta(out, prefix.as_str(), sep, &**d);
            }
        },
    }
}

/// Appends the lines for a difference whose paths begin with `prefix`.
fn put_delta(out: &mut String, prefix: &str, sep: &str, diff: &Diff)
    ensures
        final(out)@ == old(out)@ + delta_text(prefix@, sep@, diff@),
    decreases diff,
{
    let ghost before = out@;
    put_tree(out, prefix, sep, diff.added());
    let ghost mid = out@;
    let n = diff.modified_len();
    let mut i: usize = 0;
    proof {
        assert(out@ =~= mid + changes_text(prefix@, sep@, diff@.modified, 0));
    }
    while i < n
        invariant
            n == diff@.modified.len(),
            i <= n,
            out@ == mid + changes_text(prefix@, sep@, diff@.modified, i as nat),
        decreases n - i,
    {
        let path = joined(prefix, diff.modified_name_at(i).as_str());
        put_change(out, path.as_str(), sep, diff.modified_entry_at(i));
        proof {
            assert(out@ =~= mid + changes_text(prefix@, sep@, diff@.modified, (i + 1) as nat));
        }
        i += 1;
    }
    put_deleted(out, prefix, diff.deleted());
    proof {
        assert(out@ =~= before + delta_text(prefix@, sep@, diff@));
    }
}

impl Diff {
    /// The text of the difference, one line for each changed path: `A` for what was added,
    /// `M` for a file that was modified, `D` for what was deleted. Nested paths are joined
    /// by `sep`.
    pub fn render(&self, sep: &str) -> (text: String)
        ensures
            text@ == delta_text(Seq::empty(), sep@, self@),
    {
        let mut out = String::new();
        proof {
            reveal_strlit("");
        }
        put_delta(&mut out, "", sep, self);
        proof {
            assert(""@ =~= Seq::<char>::empty());
            assert(out@ =~= delta_text(Seq::empty(), sep@, self@));
        }
        out
    }

    /// The text of the difference, with nested paths joined by `/`.
    pub fn to_string(&self) -> (text: String)
        ensures
            text@ == delta_text(Seq::empty(), seq!['/'], self@),
    {
        proof {
            reveal_strlit("/");
            assert("/"@ =~= seq!['/']);
        }
        self.render("/")
    }
}

} // verus!
