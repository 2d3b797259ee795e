//! Trees, and the builder that turns a sorted list of files into nested
//! trees whose ids are computed bottom-up.

use vstd::prelude::*;
use super::{directory_mode, file_mode, framed, object_id, store, Entry, ObjectKind, Stored};
use crate::codec::{copy_range, put_bytes};
use crate::database::first_of;
use crate::order::{compare_bytes, key_sort, lemma_key_insert_at, lemma_key_sort_sorted, lex_lt};
use crate::index::survives;
use crate::index::entry::is_under;
use crate::id::Id;

verus! {

/// A child of a tree: a subtree or a file.
pub enum Node {
    Tree(Tree),
    Entry(Entry),
}

/// A directory: its children in the order they were added, and its id once
/// stored.
pub struct Tree {
    pub nodes: Vec<(Vec<u8>, Node)>,
    pub id: Option<Id>,
}

/// The id bytes a tree records for a child.
pub open spec fn node_id(n: Node) -> Seq<u8> {
    match n {
        Node::Tree(t) => match t.id {
            Some(id) => id.as_bytes@,
            None => Seq::empty(),
        },
        Node::Entry(e) => e.id.as_bytes@,
    }
}

/// The mode a tree records for a child.
pub open spec fn node_mode(n: Node) -> Seq<u8> {
    match n {
        Node::Tree(_) => directory_mode(),
        Node::Entry(e) => file_mode(e.stat.spec_is_executable()),
    }
}

/// `<mode> <name>\0<id>`: what a tree records for a child.
pub open spec fn node_record(n: (Vec<u8>, Node)) -> Seq<u8> {
    node_mode(n.1) + n.0@ + seq![0u8] + node_id(n.1)
}

/// The name a child sorts by: a subtree's name with `/` appended.
pub open spec fn node_key(n: (Vec<u8>, Node)) -> Seq<u8> {
    match n.1 {
        Node::Tree(_) => n.0@.push(47u8),
        Node::Entry(_) => n.0@,
    }
}

/// Each child's sort key and record.
pub open spec fn node_items(ns: Seq<(Vec<u8>, Node)>) -> Seq<(Seq<u8>, Seq<u8>)> {
    ns.map_values(|n: (Vec<u8>, Node)| (node_key(n), node_record(n)))
}

/// The records, one after another.
pub open spec fn records(s: Seq<(Seq<u8>, Seq<u8>)>) -> Seq<u8>
    decreases s.len(),
{
    if s.len() == 0 {
        Seq::empty()
    } else {
        records(s.drop_last()) + s.last().1
    }
}

/// The content of a tree: the records of its children in byte order of
/// their keys, where a subtree's key is its name followed by `/`.
pub open spec fn tree_content(ns: Seq<(Vec<u8>, Node)>) -> Seq<u8> {
    records(key_sort(node_items(ns)))
}

/// The keys and records held by a list of byte-string pairs.
pub open spec fn item_views(v: Seq<(Vec<u8>, Vec<u8>)>) -> Seq<(Seq<u8>, Seq<u8>)> {
    v.map_values(|x: (Vec<u8>, Vec<u8>)| (x.0@, x.1@))
}

/// The tree and every tree below it carry the id of their content.
pub open spec fn hashed(t: Tree) -> bool
    decreases t,
{
    &&& t.id matches Some(id) && id.wf() && id.as_bytes@ == object_id(
        ObjectKind::Tree,
        tree_content(t.nodes@),
    )
    &&& forall|i: int|
        0 <= i < t.nodes@.len() ==> match #[trigger] t.nodes@[i].1 {
            Node::Tree(c) => hashed(c),
            Node::Entry(_) => true,
        }
}

/// The two trees have the same children, names and files, level by level;
/// their ids may differ.
pub open spec fn same_shape(a: Tree, b: Tree) -> bool
    decreases a,
{
    &&& a.nodes@.len() == b.nodes@.len()
    &&& forall|i: int|
        0 <= i < a.nodes@.len() ==> (#[trigger] a.nodes@[i]).0@ == b.nodes@[i].0@ && match (
            a.nodes@[i].1,
            b.nodes@[i].1,
        ) {
            (Node::Tree(x), Node::Tree(y)) => same_shape(x, y),
            (Node::Entry(x), Node::Entry(y)) => x.id.as_bytes@ == y.id.as_bytes@
                && x.stat.spec_is_executable() == y.stat.spec_is_executable(),
            _ => false,
        }
}

/// The tree holds `e` at the path `p[start..]`: each `/`-separated segment
/// names a subtree, the last one names the file.
pub open spec fn holds(t: Tree, p: Seq<u8>, start: int, e: Entry) -> bool
    decreases p.len() - start,
{
    let k = first_of(p, 47, start);
    if start < 0 || start > p.len() {
        false
    } else if k >= p.len() {
        exists|i: int|
            0 <= i < t.nodes@.len() && (#[trigger] t.nodes@[i]).0@ == p.subrange(start, p.len() as int)
                && t.nodes@[i].1 == Node::Entry(e)
    } else if k < start {
        false
    } else {
        exists|i: int|
            0 <= i < t.nodes@.len() && (#[trigger] t.nodes@[i]).0@ == p.subrange(start, k) && match t.nodes@[i].1 {
                Node::Tree(c) => holds(c, p, k + 1, e),
                Node::Entry(_) => false,
            }
    }
}

/// What follows `p[start..]` survives an addition when both continue a
/// common first segment with what follows it.
proof fn lemma_survives_tail(seg: Seq<u8>, a: Seq<u8>, b: Seq<u8>)
    requires
        survives(seg + seq![47u8] + a, seg + seq![47u8] + b),
    ensures
        survives(a, b),
{
    let x = seg + seq![47u8] + a;
    let y = seg + seq![47u8] + b;
    let n = seg.len() + 1;
    if a == b {
        assert(x =~= y);
    }
    if is_under(a, b) {
        assert(x[y.len() as int] == a[b.len() as int]);
        assert(x.take(y.len() as int) =~= y) by {
            assert(a.take(b.len() as int) == b);
            assert forall|i: int| 0 <= i < y.len() implies x.take(y.len() as int)[i] == y[i] by {
                if i >= n {
                    assert(x[i] == a[i - n]);
                    assert(a.take(b.len() as int)[i - n] == a[i - n]);
                }
            }
        }
    }
    if is_under(b, a) {
        assert(y[x.len() as int] == b[a.len() as int]);
        assert(y.take(x.len() as int) =~= x) by {
            assert(b.take(a.len() as int) == a);
            assert forall|i: int| 0 <= i < x.len() implies y.take(x.len() as int)[i] == x[i] by {
                if i >= n {
                    assert(y[i] == b[i - n]);
                    assert(b.take(a.len() as int)[i - n] == b[i - n]);
                }
            }
        }
    }
}

/// A path is the whole of another's first segment and that other goes on:
/// the first lies above the second.
proof fn lemma_leaf_above(seg: Seq<u8>, rest: Seq<u8>)
    ensures
        is_under(seg + seq![47u8] + rest, seg),
{
    let x = seg + seq![47u8] + rest;
    assert(x[seg.len() as int] == 47u8);
    assert(x.take(seg.len() as int) =~= seg);
}

/// `p[start..]` split at `k`, where `p[k]` is `/`.
proof fn lemma_split_at_slash(p: Seq<u8>, start: int, k: int)
    requires
        0 <= start <= k < p.len(),
        p[k] == 47u8,
    ensures
        p.subrange(start, p.len() as int) == p.subrange(start, k) + seq![47u8] + p.subrange(
            k + 1,
            p.len() as int,
        ),
{
    assert(p.subrange(start, p.len() as int) =~= p.subrange(start, k) + seq![47u8] + p.subrange(
        k + 1,
        p.len() as int,
    ));
}

/// `first_of` finds `c` at or after `i`, or runs to the end.
proof fn lemma_first_of(s: Seq<u8>, c: u8, i: int)
    requires
        0 <= i <= s.len(),
    ensures
        i <= first_of(s, c, i) <= s.len(),
        first_of(s, c, i) < s.len() ==> s[first_of(s, c, i)] == c,
    decreases s.len() - i,
{
    if i < s.len() && s[i] != c {
        lemma_first_of(s, c, i + 1);
    }
}

/// What a tree is made of, as plain values: for each child in order its
/// name and either the shape of a subtree or a file's id and execute bit.
pub enum Shape {
    Dir(Seq<(Seq<u8>, Shape)>),
    File(Seq<u8>, bool),
}

/// The shape of a child.
pub open spec fn node_shape(n: Node) -> Shape
    decreases n,
{
    match n {
        Node::Tree(t) => Shape::Dir(nodes_shape(t, 0)),
        Node::Entry(e) => Shape::File(e.id.as_bytes@, e.stat.spec_is_executable()),
    }
}

/// The shapes of the children of `t` from the `i`-th on.
pub open spec fn nodes_shape(t: Tree, i: int) -> Seq<(Seq<u8>, Shape)>
    decreases t, t.nodes@.len() - i,
{
    if i < 0 || i >= t.nodes@.len() {
        Seq::empty()
    } else {
        seq![(t.nodes@[i].0@, node_shape(t.nodes@[i].1))] + nodes_shape(t, i + 1)
    }
}

/// The first child called `name`, or -1.
pub open spec fn find_model(ns: Seq<(Seq<u8>, Shape)>, name: Seq<u8>, i: int) -> int
    decreases ns.len() - i,
{
    if i < 0 || i >= ns.len() {
        -1
    } else if ns[i].0 == name {
        i
    } else {
        find_model(ns, name, i + 1)
    }
}

/// The children after putting the file `leaf` at `p[start..]`, as
/// `add_node` does.
pub open spec fn add_model(ns: Seq<(Seq<u8>, Shape)>, p: Seq<u8>, start: int, leaf: Shape) -> Seq<
    (Seq<u8>, Shape),
>
    decreases p.len() - start,
{
    let k = first_of(p, 47, start);
    if start < 0 || start > p.len() {
        ns
    } else if k >= p.len() {
        let part = p.subrange(start, p.len() as int);
        let i = find_model(ns, part, 0);
        if i >= 0 {
            ns.update(i, (part, leaf))
        } else {
            ns.push((part, leaf))
        }
    } else if k < start {
        ns
    } else {
        let part = p.subrange(start, k);
        let i = find_model(ns, part, 0);
        let below = if i >= 0 && ns[i].1 is Dir {
            ns[i].1->Dir_0
        } else {
            Seq::empty()
        };
        let sub = Shape::Dir(add_model(below, p, k + 1, leaf));
        if i >= 0 {
            ns.update(i, (part, sub))
        } else {
            ns.push((part, sub))
        }
    }
}

/// A file to place: its path, id and execute bit.
pub open spec fn file_view(e: Entry) -> (Seq<u8>, Seq<u8>, bool) {
    (e.path@, e.id.as_bytes@, e.stat.spec_is_executable())
}

/// The children of the root after placing each file in turn.
pub open spec fn build_shape(fs: Seq<(Seq<u8>, Seq<u8>, bool)>) -> Seq<(Seq<u8>, Shape)>
    decreases fs.len(),
{
    if fs.len() == 0 {
        Seq::empty()
    } else {
        let f = fs.last();
        add_model(build_shape(fs.drop_last()), f.0, 0, Shape::File(f.1, f.2))
    }
}

/// `nodes_shape` lists each child of `t` from the `i`-th on.
proof fn lemma_nodes_shape_from(t: Tree, i: int)
    requires
        0 <= i <= t.nodes@.len(),
    ensures
        nodes_shape(t, i).len() == t.nodes@.len() - i,
        forall|j: int|
            i <= j < t.nodes@.len() ==> #[trigger] nodes_shape(t, i)[j - i] == (
                t.nodes@[j].0@,
                node_shape(t.nodes@[j].1),
            ),
    decreases t.nodes@.len() - i,
{
    if i < t.nodes@.len() {
        lemma_nodes_shape_from(t, i + 1);
        assert forall|j: int| i <= j < t.nodes@.len() implies #[trigger] nodes_shape(t, i)[j - i] == (
            t.nodes@[j].0@,
            node_shape(t.nodes@[j].1),
        ) by {
            if j > i {
                assert(nodes_shape(t, i)[j - i] == nodes_shape(t, i + 1)[j - (i + 1)]);
            }
        }
    }
}

/// `nodes_shape` lists each child of `t`.
proof fn lemma_nodes_shape(t: Tree)
    ensures
        nodes_shape(t, 0).len() == t.nodes@.len(),
        forall|j: int|
            0 <= j < t.nodes@.len() ==> #[trigger] nodes_shape(t, 0)[j] == (
                t.nodes@[j].0@,
                node_shape(t.nodes@[j].1),
            ),
{
    lemma_nodes_shape_from(t, 0);
    assert forall|j: int| 0 <= j < t.nodes@.len() implies #[trigger] nodes_shape(t, 0)[j] == (
        t.nodes@[j].0@,
        node_shape(t.nodes@[j].1),
    ) by {
        assert(nodes_shape(t, 0)[j - 0] == nodes_shape(t, 0)[j]);
    }
}

/// The first position of a name, found by scanning from `i`.
proof fn lemma_find_model(ns: Seq<(Seq<u8>, Shape)>, name: Seq<u8>, i: int, r: int)
    requires
        0 <= i <= ns.len(),
        forall|j: int| i <= j < r ==> (#[trigger] ns[j]).0 != name,
        r == -1 || (i <= r < ns.len() && ns[r].0 == name),
        r == -1 ==> forall|j: int| i <= j < ns.len() ==> (#[trigger] ns[j]).0 != name,
    ensures
        find_model(ns, name, i) == r,
    decreases ns.len() - i,
{
    if i < ns.len() && ns[i].0 != name {
        lemma_find_model(ns, name, i + 1, r);
    }
}

/// Trees of the same shape have equal shape models, and back.
proof fn lemma_shape_model(a: Tree, b: Tree)
    ensures
        same_shape(a, b) <==> nodes_shape(a, 0) == nodes_shape(b, 0),
    decreases a,
{
    lemma_nodes_shape(a);
    lemma_nodes_shape(b);
    assert forall|i: int| 0 <= i < a.nodes@.len() && 0 <= i < b.nodes@.len() implies (match (
        (#[trigger] a.nodes@[i]).1,
        b.nodes@[i].1,
    ) {
        (Node::Tree(x), Node::Tree(y)) => same_shape(x, y) <==> nodes_shape(x, 0) == nodes_shape(y, 0),
        _ => true,
    }) by {
        match (a.nodes@[i].1, b.nodes@[i].1) {
            (Node::Tree(x), Node::Tree(y)) => {
                assert(decreases_to!(a => a.nodes));
                assert(decreases_to!(a.nodes => a.nodes@));
                assert(decreases_to!(a.nodes@ => a.nodes@[i]));
                assert(decreases_to!(a.nodes@[i] => a.nodes@[i].1));
                assert(decreases_to!(a.nodes@[i].1 => a.nodes@[i].1->Tree_0));
                lemma_shape_model(x, y);
            },
            _ => {},
        }
    }
    if same_shape(a, b) {
        assert(nodes_shape(a, 0) =~= nodes_shape(b, 0));
    }
    if nodes_shape(a, 0) == nodes_shape(b, 0) {
        assert forall|i: int| 0 <= i < a.nodes@.len() implies (#[trigger] a.nodes@[i]).0@ == b.nodes@[i].0@
            && match (a.nodes@[i].1, b.nodes@[i].1) {
            (Node::Tree(x), Node::Tree(y)) => same_shape(x, y),
            (Node::Entry(x), Node::Entry(y)) => x.id.as_bytes@ == y.id.as_bytes@
                && x.stat.spec_is_executable() == y.stat.spec_is_executable(),
            _ => false,
        } by {
            assert(nodes_shape(a, 0)[i] == nodes_shape(b, 0)[i]);
        }
    }
}

/// Each entry with its path as key.
pub open spec fn path_pairs(v: Seq<Entry>) -> Seq<(Seq<u8>, Entry)> {
    v.map_values(|e: Entry| (e.path@, e))
}

/// The files of `v` in byte order of path (stably).
pub open spec fn sorted_files(v: Seq<Entry>) -> Seq<(Seq<u8>, Seq<u8>, bool)> {
    key_sort(path_pairs(v)).map_values(|x: (Seq<u8>, Entry)| file_view(x.1))
}

/// The entries, sorted by path with an insertion sort.
fn sort_by_path(entries: Vec<Entry>) -> (r: Vec<Entry>)
    ensures
        path_pairs(r@) == key_sort(path_pairs(entries@)),
{
    let ghost orig = entries@;
    let mut out: Vec<Entry> = Vec::new();
    let mut rest = entries;
    let ghost mut done: int = 0;
    proof {
        assert(path_pairs(out@) =~= key_sort(path_pairs(orig.take(0))));
    }
    while rest.len() > 0
        invariant
            0 <= done <= orig.len(),
            rest@ == orig.skip(done),
            path_pairs(out@) == key_sort(path_pairs(orig.take(done))),
        decreases rest@.len(),
    {
        let entry = rest.remove(0);
        let ghost x = (entry.path@, entry);
        let ghost pv = path_pairs(out@);
        let mut pos: usize = 0;
        while pos < out.len() && compare_bytes(entry.path.as_slice(), out[pos].path.as_slice()) >= 0
            invariant
                pos <= out@.len(),
                pv == path_pairs(out@),
                x.0 == entry.path@,
                forall|k: int| 0 <= k < pos ==> !lex_lt(x.0, (#[trigger] pv[k]).0),
            decreases out@.len() - pos,
        {
            assert(pv[pos as int].0 == out@[pos as int].path@);
            pos = pos + 1;
        }
        proof {
            if pos < out@.len() {
                assert(pv[pos as int].0 == out@[pos as int].path@);
            }
            lemma_key_insert_at(pv, x, pos as int);
            assert(x == (orig[done].path@, orig[done]));
        }
        out.insert(pos, entry);
        proof {
            let t = path_pairs(orig.take(done + 1));
            assert(t.drop_last() =~= path_pairs(orig.take(done)));
            assert(t.last() == x);
            assert(path_pairs(out@) =~= pv.take(pos as int).push(x) + pv.skip(pos as int));
            done = done + 1;
            assert(rest@ =~= orig.skip(done));
        }
    }
    proof {
        assert(orig.take(done) =~= orig);
    }
    out
}

/// An element found twice in a sequence counts at least twice.
proof fn lemma_count_two<X>(q: Seq<X>, a: int, b: int)
    requires
        0 <= a < q.len(),
        0 <= b < q.len(),
        a != b,
        q[a] == q[b],
    ensures
        q.to_multiset().count(q[a]) >= 2,
{
    broadcast use vstd::seq_lib::group_to_multiset_ensures;

    let r = q.remove(a);
    assert(r.len() == q.len() - 1);
    let k = if b < a { b } else { b - 1 };
    assert(r[k] == q[b]);
    assert(r.contains(q[a]));
    assert(r.to_multiset() =~= q.to_multiset().remove(q[a]));
    assert(r.to_multiset().count(q[a]) > 0);
}

/// An element that counts at least twice is found at a second position.
proof fn lemma_second_position<X>(q: Seq<X>, i: int) -> (j: int)
    requires
        0 <= i < q.len(),
        q.to_multiset().count(q[i]) >= 2,
    ensures
        0 <= j < q.len(),
        j != i,
        q[j] == q[i],
{
    broadcast use vstd::seq_lib::group_to_multiset_ensures;

    let r = q.remove(i);
    assert(r.to_multiset() =~= q.to_multiset().remove(q[i]));
    assert(r.to_multiset().count(q[i]) >= 1);
    assert(r.contains(q[i]));
    let k = choose|k: int| 0 <= k < r.len() && r[k] == q[i];
    if k < i {
        assert(q[k] == r[k]);
        k
    } else {
        assert(q[k + 1] == r[k]);
        k + 1
    }
}

/// What holds of the tree built from the sorted list holds of the list as
/// given.
proof fn lemma_sorted_transfer(orig: Seq<Entry>, s: Seq<Entry>, r: Tree)
    requires
        path_pairs(s) == key_sort(path_pairs(orig)),
        (forall|i: int, j: int|
            0 <= i < s.len() && 0 <= j < s.len() && i != j ==> survives(
                (#[trigger] s[i]).path@,
                (#[trigger] s[j]).path@,
            )) ==> forall|i: int| 0 <= i < s.len() ==> holds(r, (#[trigger] s[i]).path@, 0, s[i]),
    ensures
        (forall|i: int, j: int|
            0 <= i < orig.len() && 0 <= j < orig.len() && i != j ==> survives(
                (#[trigger] orig[i]).path@,
                (#[trigger] orig[j]).path@,
            )) ==> forall|i: int|
            0 <= i < orig.len() ==> holds(r, (#[trigger] orig[i]).path@, 0, orig[i]),
{
    broadcast use vstd::seq_lib::group_to_multiset_ensures;

    let p = path_pairs(orig);
    let q = path_pairs(s);
    lemma_key_sort_sorted(p);
    assert(q.to_multiset() == p.to_multiset());
    if forall|i: int, j: int|
        0 <= i < orig.len() && 0 <= j < orig.len() && i != j ==> survives(
            (#[trigger] orig[i]).path@,
            (#[trigger] orig[j]).path@,
        ) {
        assert forall|a: int, b: int| 0 <= a < s.len() && 0 <= b < s.len() && a != b implies survives(
            (#[trigger] s[a]).path@,
            (#[trigger] s[b]).path@,
        ) by {
            assert(q[a] == (s[a].path@, s[a]));
            assert(q[b] == (s[b].path@, s[b]));
            assert(q.contains(q[a]));
            assert(q.contains(q[b]));
            assert(q.to_multiset().count(q[a]) > 0);
            assert(q.to_multiset().count(q[b]) > 0);
            assert(p.to_multiset().count(q[a]) > 0);
            assert(p.to_multiset().count(q[b]) > 0);
            assert(p.contains(q[a]));
            assert(p.contains(q[b]));
            let i = choose|i: int| 0 <= i < p.len() && p[i] == q[a];
            let j = choose|j: int| 0 <= j < p.len() && p[j] == q[b];
            assert(p[i] == (orig[i].path@, orig[i]));
            assert(p[j] == (orig[j].path@, orig[j]));
            if i == j {
                lemma_count_two(q, a, b);
                let j2 = lemma_second_position(p, i);
                assert(p[j2] == (orig[j2].path@, orig[j2]));
                assert(survives(orig[i].path@, orig[j2].path@));
            } else {
                assert(survives(orig[i].path@, orig[j].path@));
            }
        }
        assert forall|i: int| 0 <= i < orig.len() implies holds(r, (#[trigger] orig[i]).path@, 0, orig[i]) by {
            assert(p[i] == (orig[i].path@, orig[i]));
            assert(p.contains(p[i]));
            assert(p.to_multiset().count(p[i]) > 0);
            assert(q.to_multiset().count(p[i]) > 0);
            assert(q.contains(p[i]));
            let k = choose|k: int| 0 <= k < q.len() && q[k] == p[i];
            assert(q[k] == (s[k].path@, s[k]));
            assert(holds(r, s[k].path@, 0, s[k]));
        }
    }
}

impl Tree {
    pub fn new() -> (r: Tree)
        ensures
            r.nodes@.len() == 0,
            r.id is None,
    {
        Tree { nodes: Vec::new(), id: None }
    }

    /// `40000 `, the mode a tree has in its parent.
    pub fn mode(&self) -> (r: Vec<u8>)
        ensures
            r@ == directory_mode(),
    {
        let mut out: Vec<u8> = Vec::new();
        put_bytes(&mut out, &[52u8, 48, 48, 48, 48, 32]);
        proof {
            assert(out@ =~= directory_mode());
        }
        out
    }

    /// The tree's content: a record for each child, in order.
    pub fn data(&self) -> (r: Vec<u8>)
        ensures
            r@ == tree_content(self.nodes@),
    {
        let mut items: Vec<(Vec<u8>, Vec<u8>)> = Vec::new();
        let mut i: usize = 0;
        while i < self.nodes.len()
            invariant
                i <= self.nodes@.len(),
                item_views(items@) == key_sort(node_items(self.nodes@.take(i as int))),
            decreases self.nodes@.len() - i,
        {
            let name = &self.nodes[i].0;
            let node = &self.nodes[i].1;
            let mut key = copy_range(name.as_slice(), 0, name.len());
            let mut rec: Vec<u8> = Vec::new();
            match node {
                Node::Tree(t) => {
                    key.push(47u8);
                    let m = t.mode();
                    put_bytes(&mut rec, m.as_slice());
                    put_bytes(&mut rec, name.as_slice());
                    rec.push(0u8);
                    match &t.id {
                        Some(id) => put_bytes(&mut rec, id.as_bytes.as_slice()),
                        None => {},
                    }
                },
                Node::Entry(e) => {
                    let m = e.mode();
                    put_bytes(&mut rec, m.as_slice());
                    put_bytes(&mut rec, name.as_slice());
                    rec.push(0u8);
                    put_bytes(&mut rec, e.id.as_bytes.as_slice());
                },
            }
            let ghost x = (key@, rec@);
            proof {
                assert(name@.subrange(0, name@.len() as int) =~= name@);
                assert(key@ =~= node_key(self.nodes@[i as int]));
                assert(rec@ =~= node_record(self.nodes@[i as int]));
            }
            let ghost iv = item_views(items@);
            let mut pos: usize = 0;
            while pos < items.len() && compare_bytes(key.as_slice(), items[pos].0.as_slice()) >= 0
                invariant
                    pos <= items@.len(),
                    iv == item_views(items@),
                    x.0 == key@,
                    forall|k: int| 0 <= k < pos ==> !lex_lt(x.0, (#[trigger] iv[k]).0),
                decreases items@.len() - pos,
            {
                assert(iv[pos as int].0 == items@[pos as int].0@);
                pos = pos + 1;
            }
            proof {
                if pos < items@.len() {
                    assert(iv[pos as int].0 == items@[pos as int].0@);
                }
                lemma_key_insert_at(iv, x, pos as int);
            }
            items.insert(pos, (key, rec));
            proof {
                let t = self.nodes@.take(i + 1);
                assert(node_items(t).drop_last() =~= node_items(self.nodes@.take(i as int)));
                assert(node_items(t).last() == x);
                assert(item_views(items@) =~= iv.take(pos as int).push(x) + iv.skip(pos as int));
            }
            i = i + 1;
        }
        assert(self.nodes@.take(i as int) =~= self.nodes@);
        let ghost all = item_views(items@);
        let mut out: Vec<u8> = Vec::new();
        let mut j: usize = 0;
        while j < items.len()
            invariant
                j <= items@.len(),
                all == item_views(items@),
                out@ == records(all.take(j as int)),
            decreases items@.len() - j,
        {
            put_bytes(&mut out, items[j].1.as_slice());
            proof {
                assert(all.take(j + 1).drop_last() =~= all.take(j as int));
                assert(all.take(j + 1).last().1 == items@[j as int].1@);
            }
            j = j + 1;
        }
        assert(all.take(j as int) =~= all);
        out
    }

    /// The position of the child called `name`, if any.
    fn find(&self, name: &[u8]) -> (r: Option<usize>)
        ensures
            r matches Some(i) ==> i < self.nodes@.len() && self.nodes@[i as int].0@ == name@,
            r matches Some(i) ==> forall|j: int| 0 <= j < i ==> (#[trigger] self.nodes@[j]).0@ != name@,
            r is None ==> forall|i: int| 0 <= i < self.nodes@.len() ==> (#[trigger] self.nodes@[i]).0@ != name@,
    {
        let mut i: usize = 0;
        while i < self.nodes.len()
            invariant
                i <= self.nodes@.len(),
                forall|j: int| 0 <= j < i ==> (#[trigger] self.nodes@[j]).0@ != name@,
            decreases self.nodes@.len() - i,
        {
            if crate::id::bytes_equal(self.nodes[i].0.as_slice(), name) {
                return Some(i);
            }
            i = i + 1;
        }
        None
    }

    /// Put `entry` at `path[start..]` below this tree, creating the
    /// subtrees on the way; a child of the same name is replaced, except
    /// that an existing subtree is descended into. What the tree held at a
    /// path that neither is, nor lies above or below, the new one stays.
    fn add_node(&mut self, path: &[u8], start: usize, entry: Entry)
        requires
            start <= path@.len(),
        ensures
            final(self).id == old(self).id,
            holds(*final(self), path@, start as int, entry),
            nodes_shape(*final(self), 0) == add_model(
                nodes_shape(*old(self), 0),
                path@,
                start as int,
                Shape::File(entry.id.as_bytes@, entry.stat.spec_is_executable()),
            ),
            forall|q: Seq<u8>, s2: int, e2: Entry|
                #[trigger] holds(*old(self), q, s2, e2) && survives(
                    q.subrange(s2, q.len() as int),
                    path@.subrange(start as int, path@.len() as int),
                ) ==> holds(*final(self), q, s2, e2),
        decreases path@.len() - start,
    {
        let ghost old_self = *self;
        let ghost rp = path@.subrange(start as int, path@.len() as int);
        let mut slash: usize = start;
        while slash < path.len() && path[slash] != 47u8
            invariant
                start <= slash <= path@.len(),
                first_of(path@, 47, start as int) == first_of(path@, 47, slash as int),
            decreases path@.len() - slash,
        {
            slash = slash + 1;
        }
        assert(first_of(path@, 47, start as int) == slash);
        let part = copy_range(path, start, slash);
        if slash == path.len() {
            let ghost e = entry;
            let ghost name = part@;
            let found = self.find(part.as_slice());
            let ghost fi: int = match found {
                Some(i) => i as int,
                None => -1,
            };
            match found {
                Some(i) => {
                    self.nodes.set(i, (part, Node::Entry(entry)));
                    assert(self.nodes@[i as int].0@ == name && self.nodes@[i as int].1 == Node::Entry(e));
                },
                None => {
                    self.nodes.push((part, Node::Entry(entry)));
                    assert(self.nodes@[self.nodes@.len() - 1].0@ == name);
                },
            }
            assert(self.nodes@.len() >= old_self.nodes@.len());
            assert(forall|j: int| 0 <= j < old_self.nodes@.len() && j != fi ==> self.nodes@[j] == old_self.nodes@[j]);
            assert(fi >= 0 ==> old_self.nodes@[fi].0@ == name);
            proof {
                let ns0 = nodes_shape(old_self, 0);
                lemma_nodes_shape(old_self);
                lemma_nodes_shape(*self);
                lemma_find_model(ns0, name, 0, fi);
                let leaf = Shape::File(e.id.as_bytes@, e.stat.spec_is_executable());
                assert(name == path@.subrange(start as int, path@.len() as int));
                if fi >= 0 {
                    assert(nodes_shape(*self, 0) =~= ns0.update(fi, (name, leaf)));
                } else {
                    assert(nodes_shape(*self, 0) =~= ns0.push((name, leaf)));
                }
            }
            proof {
                assert forall|q: Seq<u8>, s2: int, e2: Entry|
                    #[trigger] holds(old_self, q, s2, e2) && survives(
                        q.subrange(s2, q.len() as int),
                        rp,
                    ) implies holds(*self, q, s2, e2) by {
                    let kq = first_of(q, 47, s2);
                    lemma_first_of(q, 47, s2);
                    let iq = if kq >= q.len() {
                        choose|i: int|
                            0 <= i < old_self.nodes@.len() && (#[trigger] old_self.nodes@[i]).0@
                                == q.subrange(s2, q.len() as int) && old_self.nodes@[i].1
                                == Node::Entry(e2)
                    } else {
                        choose|i: int|
                            0 <= i < old_self.nodes@.len() && (#[trigger] old_self.nodes@[i]).0@
                                == q.subrange(s2, kq) && match old_self.nodes@[i].1 {
                                Node::Tree(c) => holds(c, q, kq + 1, e2),
                                Node::Entry(_) => false,
                            }
                    };
                    if iq == fi {
                        if kq < q.len() {
                            lemma_split_at_slash(q, s2, kq);
                            lemma_leaf_above(rp, q.subrange(kq + 1, q.len() as int));
                        }
                    } else {
                        assert(self.nodes@[iq] == old_self.nodes@[iq]);
                    }
                }
            }
        } else {
            let ghost e = entry;
            proof {
                lemma_first_of(path@, 47, start as int);
                lemma_split_at_slash(path@, start as int, slash as int);
            }
            let ghost tail = path@.subrange(slash + 1, path@.len() as int);
            let found = self.find(part.as_slice());
            match found {
                Some(i) => {
                    let ghost before = self.nodes@;
                    let (name, node) = self.nodes.remove(i);
                    let mut child = match node {
                        Node::Tree(t) => t,
                        Node::Entry(_) => Tree::new(),
                    };
                    let ghost c0 = child;
                    proof {
                        let ns0 = nodes_shape(old_self, 0);
                        lemma_nodes_shape(old_self);
                        lemma_nodes_shape(c0);
                        lemma_find_model(ns0, part@, 0, i as int);
                        assert(ns0[i as int] == (before[i as int].0@, node_shape(before[i as int].1)));
                        if c0.nodes@.len() == 0 {
                            assert(nodes_shape(c0, 0) =~= Seq::<(Seq<u8>, Shape)>::empty());
                        }
                    }
                    child.add_node(path, slash + 1, entry);
                    let ghost c = child;
                    let ghost nm = name@;
                    self.nodes.insert(i, (name, Node::Tree(child)));
                    assert(self.nodes@[i as int].0@ == nm && self.nodes@[i as int].1 == Node::Tree(c));
                    proof {
                        assert(self.nodes@ =~= before.update(i as int, (self.nodes@[i as int].0, Node::Tree(c))));
                        let ns0 = nodes_shape(old_self, 0);
                        lemma_nodes_shape(old_self);
                        lemma_nodes_shape(*self);
                        lemma_find_model(ns0, part@, 0, i as int);
                        let leaf = Shape::File(e.id.as_bytes@, e.stat.spec_is_executable());
                        assert(nodes_shape(*self, 0) =~= ns0.update(
                            i as int,
                            (part@, Shape::Dir(nodes_shape(c, 0))),
                        ));
                        assert forall|q: Seq<u8>, s2: int, e2: Entry|
                            #[trigger] holds(old_self, q, s2, e2) && survives(
                                q.subrange(s2, q.len() as int),
                                rp,
                            ) implies holds(*self, q, s2, e2) by {
                            let kq = first_of(q, 47, s2);
                            lemma_first_of(q, 47, s2);
                            if kq >= q.len() {
                                let iq = choose|j: int|
                                    0 <= j < old_self.nodes@.len() && (#[trigger] old_self.nodes@[j]).0@
                                        == q.subrange(s2, q.len() as int) && old_self.nodes@[j].1
                                        == Node::Entry(e2);
                                if iq == i {
                                    lemma_leaf_above(q.subrange(s2, q.len() as int), tail);
                                } else {
                                    assert(self.nodes@[iq] == old_self.nodes@[iq]);
                                }
                            } else {
                                let iq = choose|j: int|
                                    0 <= j < old_self.nodes@.len() && (#[trigger] old_self.nodes@[j]).0@
                                        == q.subrange(s2, kq) && match old_self.nodes@[j].1 {
                                        Node::Tree(t) => holds(t, q, kq + 1, e2),
                                        Node::Entry(_) => false,
                                    };
                                if iq == i {
                                    lemma_split_at_slash(q, s2, kq);
                                    lemma_survives_tail(
                                        q.subrange(s2, kq),
                                        q.subrange(kq + 1, q.len() as int),
                                        tail,
                                    );
                                    assert(old_self.nodes@[iq].1 == Node::Tree(c0));
                                    assert(holds(c0, q, kq + 1, e2));
                                    assert(holds(c, q, kq + 1, e2));
                                } else {
                                    assert(self.nodes@[iq] == old_self.nodes@[iq]);
                                }
                            }
                        }
                    }
                },
                None => {
                    let mut child = Tree::new();
                    proof {
                        assert(nodes_shape(child, 0) =~= Seq::<(Seq<u8>, Shape)>::empty());
                    }
                    child.add_node(path, slash + 1, entry);
                    let ghost c = child;
                    let ghost nm = part@;
                    self.nodes.push((part, Node::Tree(child)));
                    assert(self.nodes@[self.nodes@.len() - 1].0@ == nm && self.nodes@[self.nodes@.len() - 1].1 == Node::Tree(c));
                    proof {
                        let ns0 = nodes_shape(old_self, 0);
                        lemma_nodes_shape(old_self);
                        lemma_nodes_shape(*self);
                        lemma_find_model(ns0, part@, 0, -1);
                        assert(nodes_shape(*self, 0) =~= ns0.push((part@, Shape::Dir(nodes_shape(c, 0)))));
                        assert forall|q: Seq<u8>, s2: int, e2: Entry|
                            #[trigger] holds(old_self, q, s2, e2) && survives(
                                q.subrange(s2, q.len() as int),
                                rp,
                            ) implies holds(*self, q, s2, e2) by {
                            let kq = first_of(q, 47, s2);
                            lemma_first_of(q, 47, s2);
                            if kq >= q.len() {
                                let iq = choose|j: int|
                                    0 <= j < old_self.nodes@.len() && (#[trigger] old_self.nodes@[j]).0@
                                        == q.subrange(s2, q.len() as int) && old_self.nodes@[j].1
                                        == Node::Entry(e2);
                                assert(self.nodes@[iq] == old_self.nodes@[iq]);
                            } else {
                                let iq = choose|j: int|
                                    0 <= j < old_self.nodes@.len() && (#[trigger] old_self.nodes@[j]).0@
                                        == q.subrange(s2, kq) && match old_self.nodes@[j].1 {
                                        Node::Tree(t) => holds(t, q, kq + 1, e2),
                                        Node::Entry(_) => false,
                                    };
                                assert(self.nodes@[iq] == old_self.nodes@[iq]);
                            }
                        }
                    }
                },
            }
        }
    }

    /// The nested trees for a list of files taken in byte order of path:
    /// each file sits under the subtrees named by its path's directories,
    /// children in the order in which the sorted list first meets them.
    /// When no path is another's, or lies above another, every file is found
    /// at its path.
    pub fn build(entries: Vec<Entry>) -> (r: Tree)
        ensures
            r.id is None,
            nodes_shape(r, 0) == build_shape(sorted_files(entries@)),
            (forall|i: int, j: int|
                0 <= i < entries@.len() && 0 <= j < entries@.len() && i != j ==> survives(
                    (#[trigger] entries@[i]).path@,
                    (#[trigger] entries@[j]).path@,
                )) ==> forall|i: int|
                0 <= i < entries@.len() ==> holds(r, (#[trigger] entries@[i]).path@, 0, entries@[i]),
    {
        let ghost orig = entries@;
        let ordered = sort_by_path(entries);
        let ghost s = ordered@;
        proof {
            lemma_key_sort_sorted(path_pairs(orig));
            assert(s.map_values(|e: Entry| file_view(e)) =~= sorted_files(orig)) by {
                assert forall|k: int| 0 <= k < s.len() implies #[trigger] path_pairs(s)[k] == (
                s[k].path@, s[k]) by {}
            }
        }
        let r = Self::build_in_order(ordered);
        proof {
            lemma_sorted_transfer(orig, s, r);
        }
        r
    }

    fn build_in_order(entries: Vec<Entry>) -> (r: Tree)
        ensures
            r.id is None,
            nodes_shape(r, 0) == build_shape(entries@.map_values(|e: Entry| file_view(e))),
            (forall|i: int, j: int|
                0 <= i < entries@.len() && 0 <= j < entries@.len() && i != j ==> survives(
                    (#[trigger] entries@[i]).path@,
                    (#[trigger] entries@[j]).path@,
                )) ==> forall|i: int|
                0 <= i < entries@.len() ==> holds(r, (#[trigger] entries@[i]).path@, 0, entries@[i]),
    {
        let ghost orig = entries@;
        let ghost ok = forall|i: int, j: int|
            0 <= i < orig.len() && 0 <= j < orig.len() && i != j ==> survives(
                (#[trigger] orig[i]).path@,
                (#[trigger] orig[j]).path@,
            );
        let mut root = Tree::new();
        proof {
            assert(nodes_shape(root, 0) =~= Seq::<(Seq<u8>, Shape)>::empty());
            assert(orig.take(0).map_values(|e: Entry| file_view(e)) =~= Seq::<(Seq<u8>, Seq<u8>, bool)>::empty());
        }
        let mut rest = entries;
        let ghost mut done: int = 0;
        while rest.len() > 0
            invariant
                root.id is None,
                0 <= done <= orig.len(),
                rest@ == orig.skip(done),
                nodes_shape(root, 0) == build_shape(orig.take(done).map_values(|e: Entry| file_view(e))),
                ok ==> forall|j: int| 0 <= j < done ==> holds(root, (#[trigger] orig[j]).path@, 0, orig[j]),
                ok ==> forall|i: int, j: int|
                    0 <= i < orig.len() && 0 <= j < orig.len() && i != j ==> survives(
                        (#[trigger] orig[i]).path@,
                        (#[trigger] orig[j]).path@,
                    ),
            decreases rest@.len(),
        {
            let entry = rest.remove(0);
            assert(entry == orig[done]);
            let path = copy_range(entry.path.as_slice(), 0, entry.path.len());
            let ghost before = root;
            root.add_node(path.as_slice(), 0, entry);
            proof {
                assert(path@.subrange(0, path@.len() as int) =~= orig[done].path@);
                assert(path@ =~= orig[done].path@);
                if ok {
                    assert forall|j: int| 0 <= j < done + 1 implies holds(
                        root,
                        (#[trigger] orig[j]).path@,
                        0,
                        orig[j],
                    ) by {
                        if j < done {
                            let q = orig[j].path@;
                            assert(q.subrange(0, q.len() as int) =~= q);
                            assert(survives(orig[j].path@, orig[done].path@));
                            assert(holds(before, q, 0, orig[j]));
                        }
                    }
                }
                let fs = orig.take(done + 1).map_values(|e: Entry| file_view(e));
                assert(fs.drop_last() =~= orig.take(done).map_values(|e: Entry| file_view(e)));
                assert(fs.last() == file_view(orig[done]));
                done = done + 1;
                assert(rest@ =~= orig.skip(done));
            }
        }
        proof {
            assert(done == orig.len());
            assert(orig.take(done) =~= orig);
        }
        root
    }

    /// Store every tree from the leaves up: each subtree's object is pushed
    /// to `out` before its parent's, each tree gets the id of its content,
    /// and the root's id is returned.
    pub fn store_all(&mut self, out: &mut Vec<Stored>) -> (r: Id)
        ensures
            hashed(*final(self)),
            same_shape(*old(self), *final(self)),
            nodes_shape(*final(self), 0) == nodes_shape(*old(self), 0),
            r.as_bytes@ == object_id(ObjectKind::Tree, tree_content(final(self).nodes@)),
            r.wf(),
            final(out)@.len() > old(out)@.len(),
            final(out)@.take(old(out)@.len() as int) == old(out)@,
            final(out)@.last().data@ == framed(ObjectKind::Tree, tree_content(final(self).nodes@)),
            forall|k: int|
                old(out)@.len() <= k < final(out)@.len() ==> (#[trigger] final(out)@[k]).id.as_bytes@
                    == crate::id::sha1_of(final(out)@[k].data@) && final(out)@[k].id.wf(),
        decreases *old(self),
    {
        let ghost orig = *self;
        let mut rest: Vec<(Vec<u8>, Node)> = Vec::new();
        std::mem::swap(&mut rest, &mut self.nodes);
        let mut done: Vec<(Vec<u8>, Node)> = Vec::new();
        let ghost start_out = out@;
        while rest.len() > 0
            invariant
                done@.len() + rest@.len() == orig.nodes@.len(),
                rest@ == orig.nodes@.skip(done@.len() as int),
                forall|i: int|
                    0 <= i < done@.len() ==> (#[trigger] done@[i]).0@ == orig.nodes@[i].0@ && match (
                        done@[i].1,
                        orig.nodes@[i].1,
                    ) {
                        (Node::Tree(x), Node::Tree(y)) => same_shape(y, x) && hashed(x),
                        (Node::Entry(x), Node::Entry(y)) => x == y,
                        _ => false,
                    },
                orig == *old(self),
                out@.len() >= start_out.len(),
                out@.take(start_out.len() as int) == start_out,
                forall|k: int|
                    start_out.len() <= k < out@.len() ==> (#[trigger] out@[k]).id.as_bytes@
                        == crate::id::sha1_of(out@[k].data@) && out@[k].id.wf(),
            decreases rest@.len(),
        {
            let ghost idx = done@.len() as int;
            let (name, node) = rest.remove(0);
            assert(orig.nodes@[idx] == (name, node));
            match node {
                Node::Tree(mut child) => {
                    proof {
                        assert(decreases_to!(orig => orig.nodes));
                        assert(decreases_to!(orig.nodes => orig.nodes@));
                        assert(decreases_to!(orig.nodes@ => orig.nodes@[idx]));
                        assert(decreases_to!(orig.nodes@[idx] => orig.nodes@[idx].1));
                        assert(decreases_to!(orig.nodes@[idx].1 => orig.nodes@[idx].1->Tree_0));
                        assert(decreases_to!(orig => child));
                    }
                    let ghost prev = out@;
                    let _ = child.store_all(out);
                    proof {
                        assert forall|k: int|
                            start_out.len() <= k < out@.len() implies (#[trigger] out@[k]).id.as_bytes@
                            == crate::id::sha1_of(out@[k].data@) && out@[k].id.wf() by {
                            if k < prev.len() {
                                assert(out@.take(prev.len() as int)[k] == prev[k]);
                            }
                        }
                        assert(out@.take(start_out.len() as int) =~= prev.take(start_out.len() as int));
                    }
                    done.push((name, Node::Tree(child)));
                },
                Node::Entry(e) => {
                    done.push((name, Node::Entry(e)));
                },
            }
        }
        self.nodes = done;
        let content = self.data();
        let stored = store(ObjectKind::Tree, content.as_slice());
        let id = stored.id.duplicate();
        self.id = Some(stored.id.duplicate());
        out.push(stored);
        proof {
            lemma_shape_model(orig, *self);
        }
        id
    }
}

/// A tree's content holds one record for each child, in byte order of the
/// children's keys (a subtree's key being its name followed by `/`).
pub proof fn lemma_tree_content_order(ns: Seq<(Vec<u8>, Node)>)
    ensures
        tree_content(ns) == records(key_sort(node_items(ns))),
        crate::order::key_sorted(key_sort(node_items(ns))),
        key_sort(node_items(ns)).to_multiset() == node_items(ns).to_multiset(),
{
    lemma_key_sort_sorted(node_items(ns));
}

/// The same files (paths, ids, execute bits) in the same order build trees
/// that, once stored, have the same root id, whichever run built them.
pub proof fn lemma_build_deterministic(a: Tree, b: Tree, fs: Seq<(Seq<u8>, Seq<u8>, bool)>)
    requires
        nodes_shape(a, 0) == build_shape(fs),
        nodes_shape(b, 0) == build_shape(fs),
        hashed(a),
        hashed(b),
    ensures
        a.id->0.as_bytes@ == b.id->0.as_bytes@,
{
    lemma_shape_model(a, b);
    lemma_same_shape_same_id(a, b);
}

/// Trees of the same shape, each carrying the ids of its content, have the
/// same id: the id of a tree is a function of its names, modes and file ids.
pub proof fn lemma_same_shape_same_id(a: Tree, b: Tree)
    requires
        hashed(a),
        hashed(b),
        same_shape(a, b),
    ensures
        a.id->0.as_bytes@ == b.id->0.as_bytes@,
    decreases a, a.nodes@.len() + 1,
{
    lemma_same_content(a, b, a.nodes@.len() as int);
    assert(a.nodes@.take(a.nodes@.len() as int) =~= a.nodes@);
    assert(b.nodes@.take(b.nodes@.len() as int) =~= b.nodes@);
}

proof fn lemma_same_content(a: Tree, b: Tree, n: int)
    requires
        hashed(a),
        hashed(b),
        same_shape(a, b),
        0 <= n <= a.nodes@.len(),
    ensures
        node_items(a.nodes@.take(n)) == node_items(b.nodes@.take(n)),
    decreases a, n,
{
    if n == 0 {
        assert(node_items(a.nodes@.take(n)) =~= node_items(b.nodes@.take(n)));
    } else {
        lemma_same_content(a, b, n - 1);
        let ta = a.nodes@.take(n);
        let tb = b.nodes@.take(n);
        assert(ta.drop_last() =~= a.nodes@.take(n - 1));
        assert(tb.drop_last() =~= b.nodes@.take(n - 1));
        assert(node_items(ta) =~= node_items(a.nodes@.take(n - 1)).push(node_items(ta).last()));
        assert(node_items(tb) =~= node_items(b.nodes@.take(n - 1)).push(node_items(tb).last()));
        let i = n - 1;
        assert(a.nodes@[i].0@ == b.nodes@[i].0@);
        match (a.nodes@[i].1, b.nodes@[i].1) {
            (Node::Tree(x), Node::Tree(y)) => {
                assert(hashed(x));
                assert(hashed(y));
                assert(decreases_to!(a => a.nodes));
                assert(decreases_to!(a.nodes => a.nodes@));
                assert(decreases_to!(a.nodes@ => a.nodes@[i]));
                assert(decreases_to!(a.nodes@[i] => a.nodes@[i].1));
                assert(decreases_to!(a.nodes@[i].1 => a.nodes@[i].1->Tree_0));
                lemma_same_shape_same_id(x, y);
            },
            _ => {},
        }
    }
}

} // verus!
