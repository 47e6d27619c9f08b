//! Data model and tree materializer: to-do rows, parent/child relation rows,
//! and the forest of display nodes built from a relevant snapshot.

use vstd::prelude::*;

use crate::errors::TodoofusError;
use crate::select::{
    acyclic, dpath, edges_closed, has_edge, has_item, lemma_dpath_first_step, lemma_dpath_suffix,
    single_parent, unique_ids,
};

verus! {

/// One stored to-do item: identifier, description, completion flag, and
/// creation time (seconds since the epoch).
#[derive(Debug)]
pub struct TodoRow {
    pub id: i64,
    pub description: String,
    pub completed: bool,
    pub created_at: i64,
}

impl TodoRow {
    pub fn new(id: i64, description: String, completed: bool, created_at: i64) -> (r: TodoRow)
        ensures
            r.id == id,
            r.description == description,
            r.completed == completed,
            r.created_at == created_at,
    {
        TodoRow { id, description, completed, created_at }
    }

    pub fn id(&self) -> (r: i64)
        ensures
            r == self.id,
    {
        self.id
    }
}

/// One parent-to-child edge of the relation table.
#[derive(Clone, Copy, Debug)]
pub struct TodoRelationRow {
    pub parent_id: i64,
    pub child_id: i64,
}

impl TodoRelationRow {
    pub fn new(parent_id: i64, child_id: i64) -> (r: TodoRelationRow)
        ensures
            r.parent_id == parent_id,
            r.child_id == child_id,
    {
        TodoRelationRow { parent_id, child_id }
    }

    pub fn parent_id(&self) -> (r: i64)
        ensures
            r == self.parent_id,
    {
        self.parent_id
    }

    pub fn child_id(&self) -> (r: i64)
        ensures
            r == self.child_id,
    {
        self.child_id
    }
}

/// A request to create an item, optionally under a parent.
pub struct TodoForCreate {
    pub parent_id: Option<i64>,
    pub description: String,
}

/// A request to set one item's completion flag.
pub struct TodoForSetCompletion {
    pub id: i64,
    pub completed: bool,
}

/// A request to replace one item's description.
pub struct TodoForSetDescription {
    pub id: i64,
    pub description: String,
}

/// A materialized display node: one relevant item together with its relevant
/// children, most recently created first.
#[derive(Debug)]
pub struct TodoForDisplay {
    pub id: i64,
    pub description: String,
    pub completed: bool,
    pub children: Vec<TodoForDisplay>,
    pub created_at: i64,
}

/// The mathematical shape of a display node: the same fields, with the
/// children as a `Seq`, so that contracts can speak of whole trees.
pub struct NodeView {
    pub id: i64,
    pub description: Seq<char>,
    pub completed: bool,
    pub children: Seq<NodeView>,
    pub created_at: i64,
}

/// The shape of a display node, recursively through its children.
pub open spec fn node_view(n: TodoForDisplay) -> NodeView
    decreases n, 1int,
{
    NodeView {
        id: n.id,
        description: n.description@,
        completed: n.completed,
        children: nodes_view(n.children@),
        created_at: n.created_at,
    }
}

/// The shapes of a sequence of display nodes, element for element.
pub open spec fn nodes_view(s: Seq<TodoForDisplay>) -> Seq<NodeView>
    decreases s, 0int,
{
    if s.len() == 0 {
        Seq::empty()
    } else {
        nodes_view(s.subrange(0, s.len() - 1)).push(node_view(s[s.len() - 1]))
    }
}

/// The row of `todos` that carries `id` (well defined when identifiers are
/// unique and the identifier is present).
pub open spec fn item_at(todos: Seq<TodoRow>, id: i64) -> TodoRow {
    todos[choose|i: int| 0 <= i < todos.len() && todos[i].id == id]
}

/// The child identifiers of `p`, in the order their edges stand in the
/// relation.
pub open spec fn children_of(edges: Seq<TodoRelationRow>, p: i64) -> Seq<i64>
    decreases edges.len(),
{
    if edges.len() == 0 {
        Seq::empty()
    } else {
        let rest = children_of(edges.subrange(0, edges.len() - 1), p);
        if edges[edges.len() - 1].parent_id == p {
            rest.push(edges[edges.len() - 1].child_id)
        } else {
            rest
        }
    }
}

/// `id` stands on the child side of some edge.
pub open spec fn is_child(edges: Seq<TodoRelationRow>, id: i64) -> bool {
    exists|k: int| 0 <= k < edges.len() && edges[k].child_id == id
}

/// The identifiers of the root items - those never on the child side of any
/// edge - in the order their rows stand in the collection.
pub open spec fn root_ids(todos: Seq<TodoRow>, edges: Seq<TodoRelationRow>) -> Seq<i64>
    decreases todos.len(),
{
    if todos.len() == 0 {
        Seq::empty()
    } else {
        let rest = root_ids(todos.subrange(0, todos.len() - 1), edges);
        if !is_child(edges, todos[todos.len() - 1].id) {
            rest.push(todos[todos.len() - 1].id)
        } else {
            rest
        }
    }
}

/// Display order: `a` comes no later than `b` when it was created more
/// recently, with the larger identifier breaking a tie.
pub open spec fn key_ge(a: NodeView, b: NodeView) -> bool {
    a.created_at > b.created_at || (a.created_at == b.created_at && a.id >= b.id)
}

/// The sequence is ordered most recently created first.
pub open spec fn sorted_desc(s: Seq<NodeView>) -> bool {
    forall|i: int, j: int| 0 <= i < j < s.len() ==> key_ge(#[trigger] s[i], #[trigger] s[j])
}

/// `x` placed before the first element it does not come after.
pub open spec fn insert_desc(s: Seq<NodeView>, x: NodeView) -> Seq<NodeView>
    decreases s.len(),
{
    if s.len() == 0 {
        seq![x]
    } else if key_ge(x, s[0]) {
        seq![x] + s
    } else {
        seq![s[0]] + insert_desc(s.subrange(1, s.len() as int), x)
    }
}

/// Insertion sort into display order.
pub open spec fn sort_desc(s: Seq<NodeView>) -> Seq<NodeView>
    decreases s.len(),
{
    if s.len() == 0 {
        Seq::empty()
    } else {
        insert_desc(sort_desc(s.subrange(1, s.len() as int)), s[0])
    }
}

/// Every level of the tree is in display order.
pub open spec fn tree_ordered(n: NodeView) -> bool
    decreases n, 1int,
{
    sorted_desc(n.children) && trees_ordered(n.children)
}

/// Every tree of the sequence is ordered at every level.
pub open spec fn trees_ordered(s: Seq<NodeView>) -> bool
    decreases s, 0int,
{
    forall|i: int| 0 <= i < s.len() ==> tree_ordered(#[trigger] s[i])
}

/// The tree grown from `id`: the item's attributes, over the trees grown
/// from its children, in display order. The fuel bounds the depth of the
/// walk; on an acyclic relation a fuel of the item count never runs out.
pub open spec fn spec_build(
    todos: Seq<TodoRow>,
    edges: Seq<TodoRelationRow>,
    id: i64,
    fuel: nat,
) -> NodeView
    decreases fuel, 0int, 0int,
{
    let row = item_at(todos, id);
    NodeView {
        id,
        description: row.description@,
        completed: row.completed,
        children: if fuel == 0 {
            Seq::empty()
        } else {
            sort_desc(spec_build_list(todos, edges, children_of(edges, id), (fuel - 1) as nat))
        },
        created_at: row.created_at,
    }
}

/// The trees grown from each identifier of `ids`, in order.
pub open spec fn spec_build_list(
    todos: Seq<TodoRow>,
    edges: Seq<TodoRelationRow>,
    ids: Seq<i64>,
    fuel: nat,
) -> Seq<NodeView>
    decreases fuel, 1int, ids.len(),
{
    if ids.len() == 0 {
        Seq::empty()
    } else {
        spec_build_list(todos, edges, ids.subrange(0, ids.len() - 1), fuel).push(
            spec_build(todos, edges, ids[ids.len() - 1], fuel),
        )
    }
}

/// The whole display forest of a snapshot: the tree of every root, in
/// display order.
pub open spec fn spec_display(todos: Seq<TodoRow>, edges: Seq<TodoRelationRow>) -> Seq<NodeView> {
    sort_desc(spec_build_list(todos, edges, root_ids(todos, edges), todos.len()))
}

/// The shape of a sequence of display nodes is taken element for element.
pub proof fn lemma_nodes_view(s: Seq<TodoForDisplay>)
    ensures
        nodes_view(s).len() == s.len(),
        forall|i: int| 0 <= i < s.len() ==> #[trigger] nodes_view(s)[i] == node_view(s[i]),
    decreases s.len(),
{
    if s.len() > 0 {
        lemma_nodes_view(s.subrange(0, s.len() - 1));
        assert forall|i: int| 0 <= i < s.len() implies #[trigger] nodes_view(s)[i] == node_view(
            s[i],
        ) by {
            if i < s.len() - 1 {
                assert(s.subrange(0, s.len() - 1)[i] == s[i]);
                assert(nodes_view(s)[i] == nodes_view(s.subrange(0, s.len() - 1))[i]);
            }
        }
    }
}

/// Every child identifier is joined to its parent by an edge of the
/// relation.
pub proof fn lemma_children_of_edges(edges: Seq<TodoRelationRow>, p: i64)
    ensures
        forall|j: int|
            0 <= j < children_of(edges, p).len() ==> has_edge(
                edges,
                p,
                #[trigger] children_of(edges, p)[j],
            ),
    decreases edges.len(),
{
    if edges.len() > 0 {
        let pre = edges.subrange(0, edges.len() - 1);
        lemma_children_of_edges(pre, p);
        assert forall|j: int| 0 <= j < children_of(edges, p).len() implies has_edge(
            edges,
            p,
            #[trigger] children_of(edges, p)[j],
        ) by {
            if j < children_of(pre, p).len() {
                assert(has_edge(pre, p, children_of(pre, p)[j]));
                let k = choose|k: int|
                    0 <= k < pre.len() && pre[k].parent_id == p && pre[k].child_id == children_of(
                        pre,
                        p,
                    )[j];
                assert(edges[k] == pre[k]);
            } else {
                assert(edges[edges.len() - 1].parent_id == p);
            }
        }
    }
}

/// Every root identifier names a row of the collection and is never on the
/// child side of an edge.
pub proof fn lemma_root_ids(todos: Seq<TodoRow>, edges: Seq<TodoRelationRow>)
    ensures
        forall|j: int|
            0 <= j < root_ids(todos, edges).len() ==> has_item(
                todos,
                #[trigger] root_ids(todos, edges)[j],
            ) && !is_child(edges, root_ids(todos, edges)[j]),
    decreases todos.len(),
{
    if todos.len() > 0 {
        let pre = todos.subrange(0, todos.len() - 1);
        lemma_root_ids(pre, edges);
        assert forall|j: int| 0 <= j < root_ids(todos, edges).len() implies has_item(
            todos,
            #[trigger] root_ids(todos, edges)[j],
        ) && !is_child(edges, root_ids(todos, edges)[j]) by {
            if j < root_ids(pre, edges).len() {
                assert(has_item(pre, root_ids(pre, edges)[j]));
                let i = choose|i: int| 0 <= i < pre.len() && pre[i].id == root_ids(pre, edges)[j];
                assert(todos[i] == pre[i]);
            } else {
                assert(todos[todos.len() - 1].id == root_ids(todos, edges)[j]);
            }
        }
    }
}

/// A directed chain extends by one edge at its end.
pub proof fn lemma_dpath_extend(edges: Seq<TodoRelationRow>, a: i64, m: i64, c: i64, n: nat)
    requires
        dpath(edges, a, m, n),
        has_edge(edges, m, c),
    ensures
        dpath(edges, a, c, n + 1),
{
}

/// A finite set of item identifiers is no larger than the item collection.
proof fn lemma_anc_len(anc: Set<i64>, todos: Seq<TodoRow>)
    requires
        anc.finite(),
        forall|a: i64| anc.contains(a) ==> has_item(todos, a),
    ensures
        anc.len() <= todos.len(),
{
    let ids = todos.map_values(|t: TodoRow| t.id);
    ids.lemma_cardinality_of_set();
    assert forall|x: i64| anc.contains(x) implies ids.to_set().contains(x) by {
        let i = choose|i: int| 0 <= i < todos.len() && todos[i].id == x;
        assert(ids[i] == x);
    }
    vstd::set_lib::lemma_len_subset(anc, ids.to_set());
    assert(ids.len() == todos.len());
}

/// Membership in an insertion: exactly the old elements and the new one.
pub proof fn lemma_insert_desc_contains(s: Seq<NodeView>, x: NodeView, e: NodeView)
    ensures
        insert_desc(s, x).contains(e) <==> (e == x || s.contains(e)),
    decreases s.len(),
{
    let r = insert_desc(s, x);
    if s.len() == 0 {
        if r.contains(e) {
            let j = choose|j: int| 0 <= j < r.len() && r[j] == e;
            assert(e == x);
        }
        if e == x {
            assert(r[0] == e);
        }
    } else if key_ge(x, s[0]) {
        if r.contains(e) {
            let j = choose|j: int| 0 <= j < r.len() && r[j] == e;
            if j > 0 {
                assert(s[j - 1] == e);
            }
        }
        if e == x {
            assert(r[0] == e);
        }
        if s.contains(e) {
            let j = choose|j: int| 0 <= j < s.len() && s[j] == e;
            assert(r[j + 1] == e);
        }
    } else {
        let tail = s.subrange(1, s.len() as int);
        lemma_insert_desc_contains(tail, x, e);
        let rt = insert_desc(tail, x);
        assert(r == seq![s[0]] + rt);
        if r.contains(e) {
            let j = choose|j: int| 0 <= j < r.len() && r[j] == e;
            if j == 0 {
                assert(s[0] == e);
            } else {
                assert(rt[j - 1] == e);
                assert(rt.contains(e));
                if e != x {
                    let j2 = choose|j2: int| 0 <= j2 < tail.len() && tail[j2] == e;
                    assert(tail[j2] == s[j2 + 1]);
                }
            }
        }
        if e == x || s.contains(e) {
            if e != x && s[choose|j: int| 0 <= j < s.len() && s[j] == e] == e
                && (choose|j: int| 0 <= j < s.len() && s[j] == e) == 0 {
                assert(r[0] == e);
            }
            if e == x {
                assert(rt.contains(e));
                let j3 = choose|j3: int| 0 <= j3 < rt.len() && rt[j3] == e;
                assert(r[j3 + 1] == e);
            } else {
                let j = choose|j: int| 0 <= j < s.len() && s[j] == e;
                if j == 0 {
                    assert(r[0] == e);
                } else {
                    assert(tail[j - 1] == e);
                    assert(tail.contains(e));
                    assert(rt.contains(e));
                    let j3 = choose|j3: int| 0 <= j3 < rt.len() && rt[j3] == e;
                    assert(r[j3 + 1] == e);
                }
            }
        }
    }
}

/// Inserting into an ordered sequence keeps it ordered and adds one
/// element.
pub proof fn lemma_insert_desc_sorted(s: Seq<NodeView>, x: NodeView)
    requires
        sorted_desc(s),
    ensures
        sorted_desc(insert_desc(s, x)),
        insert_desc(s, x).len() == s.len() + 1,
    decreases s.len(),
{
    let r = insert_desc(s, x);
    if s.len() == 0 {
    } else if key_ge(x, s[0]) {
        assert forall|i: int, j: int| 0 <= i < j < r.len() implies key_ge(
            #[trigger] r[i],
            #[trigger] r[j],
        ) by {
            if i > 0 {
                assert(r[i] == s[i - 1] && r[j] == s[j - 1]);
            } else {
                assert(r[j] == s[j - 1]);
                if j > 1 {
                    assert(key_ge(s[0], s[j - 1]));
                }
            }
        }
    } else {
        let tail = s.subrange(1, s.len() as int);
        assert(sorted_desc(tail)) by {
            assert forall|i: int, j: int| 0 <= i < j < tail.len() implies key_ge(
                #[trigger] tail[i],
                #[trigger] tail[j],
            ) by {
                assert(tail[i] == s[i + 1] && tail[j] == s[j + 1]);
            }
        }
        lemma_insert_desc_sorted(tail, x);
        let rt = insert_desc(tail, x);
        assert(r == seq![s[0]] + rt);
        assert forall|i: int, j: int| 0 <= i < j < r.len() implies key_ge(
            #[trigger] r[i],
            #[trigger] r[j],
        ) by {
            if i > 0 {
                assert(r[i] == rt[i - 1] && r[j] == rt[j - 1]);
            } else {
                assert(r[i] == s[0]);
                assert(r[j] == rt[j - 1]);
                assert(rt.contains(rt[j - 1]));
                lemma_insert_desc_contains(tail, x, rt[j - 1]);
                if rt[j - 1] == x {
                    assert(key_ge(s[0], x));
                } else {
                    let j2 = choose|j2: int| 0 <= j2 < tail.len() && tail[j2] == rt[j - 1];
                    assert(tail[j2] == s[j2 + 1]);
                    assert(key_ge(s[0], s[j2 + 1]));
                }
            }
        }
    }
}

/// Membership in a sorted sequence: exactly the original elements.
pub proof fn lemma_sort_desc_contains(s: Seq<NodeView>, e: NodeView)
    ensures
        sort_desc(s).contains(e) <==> s.contains(e),
    decreases s.len(),
{
    if s.len() > 0 {
        let tail = s.subrange(1, s.len() as int);
        lemma_sort_desc_contains(tail, e);
        lemma_insert_desc_contains(sort_desc(tail), s[0], e);
        if sort_desc(s).contains(e) {
            if e != s[0] {
                assert(tail.contains(e));
                let j = choose|j: int| 0 <= j < tail.len() && tail[j] == e;
                assert(s[j + 1] == e);
            } else {
                assert(s[0] == e);
            }
        }
        if s.contains(e) {
            let j = choose|j: int| 0 <= j < s.len() && s[j] == e;
            if j > 0 {
                assert(tail[j - 1] == e);
                assert(tail.contains(e));
            }
        }
    }
}

/// Sorting yields an ordered sequence of the same length.
pub proof fn lemma_sort_desc_sorted(s: Seq<NodeView>)
    ensures
        sorted_desc(sort_desc(s)),
        sort_desc(s).len() == s.len(),
    decreases s.len(),
{
    if s.len() > 0 {
        let tail = s.subrange(1, s.len() as int);
        lemma_sort_desc_sorted(tail);
        lemma_insert_desc_sorted(sort_desc(tail), s[0]);
    }
}

/// Every tree the model grows is ordered at every level.
pub proof fn lemma_build_ordered(
    todos: Seq<TodoRow>,
    edges: Seq<TodoRelationRow>,
    id: i64,
    fuel: nat,
)
    ensures
        tree_ordered(spec_build(todos, edges, id, fuel)),
    decreases fuel, 0int, 0int,
{
    let n = spec_build(todos, edges, id, fuel);
    if fuel == 0 {
        assert(n.children =~= Seq::<NodeView>::empty());
    } else {
        let list = spec_build_list(todos, edges, children_of(edges, id), (fuel - 1) as nat);
        lemma_build_list_ordered(todos, edges, children_of(edges, id), (fuel - 1) as nat);
        lemma_sort_desc_sorted(list);
        assert forall|i: int| 0 <= i < n.children.len() implies tree_ordered(
            #[trigger] n.children[i],
        ) by {
            assert(sort_desc(list).contains(n.children[i]));
            lemma_sort_desc_contains(list, n.children[i]);
            let j = choose|j: int| 0 <= j < list.len() && list[j] == n.children[i];
            assert(tree_ordered(list[j]));
        }
    }
}

/// Every tree in a grown list is ordered at every level.
pub proof fn lemma_build_list_ordered(
    todos: Seq<TodoRow>,
    edges: Seq<TodoRelationRow>,
    ids: Seq<i64>,
    fuel: nat,
)
    ensures
        spec_build_list(todos, edges, ids, fuel).len() == ids.len(),
        trees_ordered(spec_build_list(todos, edges, ids, fuel)),
    decreases fuel, 1int, ids.len(),
{
    let r = spec_build_list(todos, edges, ids, fuel);
    if ids.len() > 0 {
        let pre = ids.subrange(0, ids.len() - 1);
        lemma_build_list_ordered(todos, edges, pre, fuel);
        lemma_build_ordered(todos, edges, ids[ids.len() - 1], fuel);
        let rp = spec_build_list(todos, edges, pre, fuel);
        assert forall|i: int| 0 <= i < r.len() implies tree_ordered(#[trigger] r[i]) by {
            if i < r.len() - 1 {
                assert(r[i] == rp[i]);
            }
        }
    }
}

/// `x` is a descendant of `p`: a directed chain of any length (zero
/// included) leads from `p` to `x`.
pub open spec fn desc(edges: Seq<TodoRelationRow>, p: i64, x: i64) -> bool {
    exists|n: nat| dpath(edges, p, x, n)
}

/// Every identifier of a tree, the root first.
pub open spec fn tree_ids(n: NodeView) -> Seq<i64>
    decreases n, 1int,
{
    seq![n.id] + forest_ids(n.children)
}

/// Every identifier of a forest, tree by tree.
pub open spec fn forest_ids(s: Seq<NodeView>) -> Seq<i64>
    decreases s, 0int,
{
    if s.len() == 0 {
        Seq::empty()
    } else {
        forest_ids(s.subrange(0, s.len() - 1)) + tree_ids(s[s.len() - 1])
    }
}

/// An identifier occurs in a forest exactly when it occurs in one of its
/// trees.
pub proof fn lemma_forest_ids_membership(s: Seq<NodeView>, x: i64)
    ensures
        forest_ids(s).contains(x) <==> exists|j: int|
            0 <= j < s.len() && tree_ids(#[trigger] s[j]).contains(x),
    decreases s.len(),
{
    if s.len() > 0 {
        let pre = s.subrange(0, s.len() - 1);
        lemma_forest_ids_membership(pre, x);
        let f = forest_ids(s);
        let fp = forest_ids(pre);
        let tl = tree_ids(s[s.len() - 1]);
        assert(f == fp + tl);
        if f.contains(x) {
            let j = choose|j: int| 0 <= j < f.len() && f[j] == x;
            if j < fp.len() {
                assert(fp[j] == x);
                assert(fp.contains(x));
                let j2 = choose|j2: int| 0 <= j2 < pre.len() && tree_ids(pre[j2]).contains(x);
                assert(s[j2] == pre[j2]);
            } else {
                assert(tl[j - fp.len()] == x);
                assert(tl.contains(x));
            }
        }
        if exists|j: int| 0 <= j < s.len() && tree_ids(#[trigger] s[j]).contains(x) {
            let j = choose|j: int| 0 <= j < s.len() && tree_ids(#[trigger] s[j]).contains(x);
            if j < s.len() - 1 {
                assert(pre[j] == s[j]);
                assert(fp.contains(x));
                let j3 = choose|j3: int| 0 <= j3 < fp.len() && fp[j3] == x;
                assert(f[j3] == x);
            } else {
                assert(tl.contains(x));
                let j3 = choose|j3: int| 0 <= j3 < tl.len() && tl[j3] == x;
                assert(f[fp.len() + j3] == x);
            }
        }
    }
}

/// A directed chain extends by one edge at its start.
pub proof fn lemma_dpath_prepend(edges: Seq<TodoRelationRow>, a: i64, c: i64, x: i64, n: nat)
    requires
        has_edge(edges, a, c),
        dpath(edges, c, x, n),
    ensures
        dpath(edges, a, x, n + 1),
    decreases n,
{
    if n == 0 {
        assert(dpath(edges, a, a, 0));
    } else {
        let m = choose|m: i64| dpath(edges, c, m, (n - 1) as nat) && has_edge(edges, m, x);
        lemma_dpath_prepend(edges, a, c, m, (n - 1) as nat);
    }
}

/// Every identifier joined to `p` by an edge stands among its children.
pub proof fn lemma_children_of_complete(edges: Seq<TodoRelationRow>, p: i64, c: i64)
    requires
        has_edge(edges, p, c),
    ensures
        children_of(edges, p).contains(c),
    decreases edges.len(),
{
    let k = choose|k: int| 0 <= k < edges.len() && edges[k].parent_id == p && edges[k].child_id == c;
    let pre = edges.subrange(0, edges.len() - 1);
    let r = children_of(edges, p);
    if k == edges.len() - 1 {
        assert(r[r.len() - 1] == c);
    } else {
        assert(pre[k] == edges[k]);
        assert(has_edge(pre, p, c));
        lemma_children_of_complete(pre, p, c);
        let j = choose|j: int| 0 <= j < children_of(pre, p).len() && children_of(pre, p)[j] == c;
        assert(r[j] == c);
    }
}

/// Under a single-parent relation no identifier is listed twice among the
/// children of `p`.
pub proof fn lemma_children_of_nodup(edges: Seq<TodoRelationRow>, p: i64)
    requires
        single_parent(edges),
    ensures
        children_of(edges, p).no_duplicates(),
    decreases edges.len(),
{
    if edges.len() > 0 {
        let pre = edges.subrange(0, edges.len() - 1);
        assert(single_parent(pre)) by {
            assert forall|k1: int, k2: int| 0 <= k1 < k2 < pre.len() implies (
            #[trigger] pre[k1]).child_id != (#[trigger] pre[k2]).child_id by {
                assert(pre[k1] == edges[k1] && pre[k2] == edges[k2]);
            }
        }
        lemma_children_of_nodup(pre, p);
        let rp = children_of(pre, p);
        let r = children_of(edges, p);
        if edges[edges.len() - 1].parent_id == p {
            let c = edges[edges.len() - 1].child_id;
            assert(!rp.contains(c)) by {
                if rp.contains(c) {
                    lemma_children_of_edges(pre, p);
                    let j = choose|j: int| 0 <= j < rp.len() && rp[j] == c;
                    assert(has_edge(pre, p, rp[j]));
                    let k = choose|k: int|
                        0 <= k < pre.len() && pre[k].parent_id == p && pre[k].child_id == c;
                    assert(edges[k].child_id == edges[edges.len() - 1].child_id);
                }
            }
        }
    }
}

/// A grown list holds the tree of each identifier, in place.
pub proof fn lemma_build_list_index(
    todos: Seq<TodoRow>,
    edges: Seq<TodoRelationRow>,
    ids: Seq<i64>,
    fuel: nat,
)
    ensures
        spec_build_list(todos, edges, ids, fuel).len() == ids.len(),
        forall|j: int|
            0 <= j < ids.len() ==> #[trigger] spec_build_list(todos, edges, ids, fuel)[j]
                == spec_build(todos, edges, ids[j], fuel),
    decreases ids.len(),
{
    if ids.len() > 0 {
        let pre = ids.subrange(0, ids.len() - 1);
        lemma_build_list_index(todos, edges, pre, fuel);
        assert forall|j: int| 0 <= j < ids.len() implies #[trigger] spec_build_list(
            todos,
            edges,
            ids,
            fuel,
        )[j] == spec_build(todos, edges, ids[j], fuel) by {
            if j < ids.len() - 1 {
                assert(pre[j] == ids[j]);
                assert(spec_build_list(todos, edges, ids, fuel)[j] == spec_build_list(
                    todos,
                    edges,
                    pre,
                    fuel,
                )[j]);
            }
        }
    }
}

/// No identifier occurs in both sequences.
pub open spec fn ids_disjoint(a: Seq<i64>, b: Seq<i64>) -> bool {
    forall|x: i64| !(a.contains(x) && b.contains(x))
}

/// A forest of trees that are duplicate-free and pairwise disjoint lists
/// every identifier once.
proof fn lemma_forest_ids_nodup(s: Seq<NodeView>)
    requires
        forall|j: int| 0 <= j < s.len() ==> tree_ids(#[trigger] s[j]).no_duplicates(),
        forall|j1: int, j2: int|
            0 <= j1 < j2 < s.len() ==> ids_disjoint(
                tree_ids(#[trigger] s[j1]),
                tree_ids(#[trigger] s[j2]),
            ),
    ensures
        forest_ids(s).no_duplicates(),
    decreases s.len(),
{
    if s.len() > 0 {
        let pre = s.subrange(0, s.len() - 1);
        assert forall|j: int| 0 <= j < pre.len() implies tree_ids(
            #[trigger] pre[j],
        ).no_duplicates() by {
            assert(pre[j] == s[j]);
        }
        assert forall|j1: int, j2: int| 0 <= j1 < j2 < pre.len() implies ids_disjoint(
            tree_ids(#[trigger] pre[j1]),
            tree_ids(#[trigger] pre[j2]),
        ) by {
            assert(pre[j1] == s[j1] && pre[j2] == s[j2]);
        }
        lemma_forest_ids_nodup(pre);
        let fp = forest_ids(pre);
        let tl = tree_ids(s[s.len() - 1]);
        assert forall|i: int, j: int| 0 <= i < fp.len() && 0 <= j < tl.len() implies fp[i]
            != tl[j] by {
            if fp[i] == tl[j] {
                let x = fp[i];
                assert(fp.contains(x));
                lemma_forest_ids_membership(pre, x);
                let j2 = choose|j2: int| 0 <= j2 < pre.len() && tree_ids(pre[j2]).contains(x);
                assert(pre[j2] == s[j2]);
                assert(tl.contains(x));
                assert(ids_disjoint(tree_ids(s[j2]), tree_ids(s[s.len() - 1])));
            }
        }
        vstd::seq_lib::lemma_no_dup_in_concat(fp, tl);
        assert(forest_ids(s) == fp + tl);
    }
}

/// The tree grown from `id` lists exactly the descendants of `id`, each
/// exactly once, provided the snapshot is well formed: distinct item
/// identifiers, edges between known items, at most one parent per item, and
/// no directed cycle. The ghost set plays the same role as in the builder:
/// the ancestors of `id` on the walk.
proof fn lemma_tree_ids_exact(
    todos: Seq<TodoRow>,
    edges: Seq<TodoRelationRow>,
    id: i64,
    anc: Set<i64>,
)
    requires
        unique_ids(todos),
        acyclic(edges),
        edges_closed(todos, edges),
        single_parent(edges),
        has_item(todos, id),
        anc.finite(),
        !anc.contains(id),
        forall|a: i64| #[trigger] anc.contains(a) ==> has_item(todos, a),
        forall|a: i64| #[trigger]
            anc.contains(a) ==> exists|n: nat| 1 <= n && dpath(edges, a, id, n),
    ensures
        tree_ids(spec_build(todos, edges, id, (todos.len() - anc.len()) as nat)).no_duplicates(),
        forall|x: i64|
            tree_ids(spec_build(todos, edges, id, (todos.len() - anc.len()) as nat)).contains(x)
                <==> desc(edges, id, x),
    decreases todos.len() - anc.len(),
{
    let anc2 = anc.insert(id);
    vstd::set::axiom_set_insert_len(anc, id);
    assert forall|a: i64| #[trigger] anc2.contains(a) implies has_item(todos, a) by {
        if a != id {
            assert(anc.contains(a));
        }
    }
    lemma_anc_len(anc2, todos);
    let fuel = (todos.len() - anc.len()) as nat;
    let fuel1 = (todos.len() - anc2.len()) as nat;
    assert(fuel == fuel1 + 1);
    let kids = children_of(edges, id);
    let list = spec_build_list(todos, edges, kids, fuel1);
    let sorted = sort_desc(list);
    let node = spec_build(todos, edges, id, fuel);
    assert(node.children == sorted);
    assert(tree_ids(node) == seq![id] + forest_ids(sorted));
    lemma_children_of_edges(edges, id);
    lemma_children_of_nodup(edges, id);
    lemma_build_list_index(todos, edges, kids, fuel1);

    // Each child's subtree lists exactly its descendants.
    assert forall|j: int| 0 <= j < kids.len() implies tree_ids(
        #[trigger] list[j],
    ).no_duplicates() && (forall|x: i64| tree_ids(list[j]).contains(x) <==> desc(
        edges,
        kids[j],
        x,
    )) && list[j].id == kids[j] by {
        let c = kids[j];
        assert(has_edge(edges, id, c));
        let k = choose|k: int|
            0 <= k < edges.len() && edges[k].parent_id == id && edges[k].child_id == c;
        assert(has_item(todos, edges[k].parent_id) && has_item(todos, edges[k].child_id));
        if c == id {
            assert(dpath(edges, id, id, 0));
            lemma_dpath_prepend(edges, id, id, id, 0);
            assert(!dpath(edges, id, id, 1));
            assert(false);
        }
        if anc.contains(c) {
            let n = choose|n: nat| 1 <= n && dpath(edges, c, id, n);
            lemma_dpath_extend(edges, c, id, c, n);
            assert(!dpath(edges, c, c, n + 1));
            assert(false);
        }
        assert forall|a: i64| #[trigger] anc2.contains(a) implies exists|n: nat|
            1 <= n && dpath(edges, a, c, n) by {
            if a == id {
                assert(dpath(edges, id, id, 0));
                lemma_dpath_extend(edges, id, id, c, 0);
                assert(1 <= 1nat && dpath(edges, a, c, 1nat));
            } else {
                assert(anc.contains(a));
                let n = choose|n: nat| 1 <= n && dpath(edges, a, id, n);
                lemma_dpath_extend(edges, a, id, c, n);
                assert(1 <= n + 1 && dpath(edges, a, c, (n + 1) as nat));
            }
        }
        lemma_tree_ids_exact(todos, edges, c, anc2);
        assert(list[j] == spec_build(todos, edges, c, fuel1));
    }

    // The sorted children are the same trees, each once.
    assert(list.no_duplicates()) by {
        assert forall|j1: int, j2: int| 0 <= j1 < j2 < list.len() implies list[j1] != list[j2] by {
            assert(list[j1].id == kids[j1] && list[j2].id == kids[j2]);
        }
    }
    lemma_sort_desc_sorted(list);
    assert(sorted.to_set() =~= list.to_set()) by {
        assert forall|e: NodeView| sorted.to_set().contains(e) <==> list.to_set().contains(
            e,
        ) by {
            lemma_sort_desc_contains(list, e);
        }
    }
    list.unique_seq_to_set();
    sorted.lemma_no_dup_set_cardinality();
    assert(sorted.no_duplicates());

    // Distinct children have disjoint descendant sets.
    assert forall|j1: int, j2: int| 0 <= j1 < j2 < sorted.len() implies ids_disjoint(
        tree_ids(#[trigger] sorted[j1]),
        tree_ids(#[trigger] sorted[j2]),
    ) by {
        assert(sorted.contains(sorted[j1]) && sorted.contains(sorted[j2]));
        lemma_sort_desc_contains(list, sorted[j1]);
        lemma_sort_desc_contains(list, sorted[j2]);
        let l1 = choose|l1: int| 0 <= l1 < list.len() && list[l1] == sorted[j1];
        let l2 = choose|l2: int| 0 <= l2 < list.len() && list[l2] == sorted[j2];
        assert(sorted[j1] != sorted[j2]);
        assert(l1 != l2);
        assert forall|x: i64|
            !(tree_ids(sorted[j1]).contains(x) && tree_ids(sorted[j2]).contains(x)) by {
            if tree_ids(sorted[j1]).contains(x) && tree_ids(sorted[j2]).contains(x) {
                assert(desc(edges, kids[l1], x) && desc(edges, kids[l2], x));
                lemma_children_disjoint(todos, edges, id, kids, l1, l2, x);
            }
        }
    }

    // The root identifier lies in no child subtree.
    assert(!forest_ids(sorted).contains(id)) by {
        if forest_ids(sorted).contains(id) {
            lemma_forest_ids_membership(sorted, id);
            let j = choose|j: int| 0 <= j < sorted.len() && tree_ids(sorted[j]).contains(id);
            assert(sorted.contains(sorted[j]));
            lemma_sort_desc_contains(list, sorted[j]);
            let l = choose|l: int| 0 <= l < list.len() && list[l] == sorted[j];
            assert(desc(edges, kids[l], id));
            let n = choose|n: nat| dpath(edges, kids[l], id, n);
            lemma_dpath_prepend(edges, id, kids[l], id, n);
            assert(!dpath(edges, id, id, n + 1));
            assert(false);
        }
    }
    assert forall|j: int| 0 <= j < sorted.len() implies tree_ids(
        #[trigger] sorted[j],
    ).no_duplicates() by {
        assert(sorted.contains(sorted[j]));
        lemma_sort_desc_contains(list, sorted[j]);
        let l = choose|l: int| 0 <= l < list.len() && list[l] == sorted[j];
    }
    lemma_forest_ids_nodup(sorted);
    assert(tree_ids(node).no_duplicates()) by {
        vstd::seq_lib::lemma_no_dup_in_concat(seq![id], forest_ids(sorted));
        assert forall|i: int, j: int|
            0 <= i < seq![id].len() && 0 <= j < forest_ids(sorted).len() implies seq![id][i]
            != forest_ids(sorted)[j] by {
            if seq![id][i] == forest_ids(sorted)[j] {
                assert(forest_ids(sorted).contains(id));
            }
        }
    }

    // The tree lists exactly the descendants.
    assert forall|x: i64| tree_ids(node).contains(x) <==> desc(edges, id, x) by {
        lemma_forest_ids_membership(sorted, x);
        if tree_ids(node).contains(x) {
            let j = choose|j: int| 0 <= j < tree_ids(node).len() && tree_ids(node)[j] == x;
            if j == 0 {
                assert(x == id);
                assert(dpath(edges, id, x, 0));
            } else {
                assert(forest_ids(sorted)[j - 1] == x);
                assert(forest_ids(sorted).contains(x));
                let j2 = choose|j2: int| 0 <= j2 < sorted.len() && tree_ids(sorted[j2]).contains(x);
                assert(sorted.contains(sorted[j2]));
                lemma_sort_desc_contains(list, sorted[j2]);
                let l = choose|l: int| 0 <= l < list.len() && list[l] == sorted[j2];
                assert(desc(edges, kids[l], x));
                let n = choose|n: nat| dpath(edges, kids[l], x, n);
                lemma_dpath_prepend(edges, id, kids[l], x, n);
            }
        }
        if desc(edges, id, x) {
            let n = choose|n: nat| dpath(edges, id, x, n);
            if n == 0 {
                assert(x == id);
                assert(tree_ids(node)[0] == x);
            } else {
                lemma_dpath_first_step(edges, id, x, n);
                let c = choose|c: i64|
                    has_edge(edges, id, c) && dpath(edges, c, x, (n - 1) as nat);
                lemma_children_of_complete(edges, id, c);
                let l = choose|l: int| 0 <= l < kids.len() && kids[l] == c;
                assert(desc(edges, c, x));
                assert(tree_ids(list[l]).contains(x));
                assert(list.contains(list[l]));
                lemma_sort_desc_contains(list, list[l]);
                let j2 = choose|j2: int| 0 <= j2 < sorted.len() && sorted[j2] == list[l];
                assert(tree_ids(sorted[j2]).contains(x));
                assert(forest_ids(sorted).contains(x));
                let j3 = choose|j3: int|
                    0 <= j3 < forest_ids(sorted).len() && forest_ids(sorted)[j3] == x;
                assert(tree_ids(node)[j3 + 1] == x);
            }
        }
    }
}

/// Two distinct children of one parent have disjoint descendant sets, under
/// a single-parent acyclic relation.
proof fn lemma_children_disjoint(
    todos: Seq<TodoRow>,
    edges: Seq<TodoRelationRow>,
    id: i64,
    kids: Seq<i64>,
    l1: int,
    l2: int,
    x: i64,
)
    requires
        acyclic(edges),
        single_parent(edges),
        kids == children_of(edges, id),
        0 <= l1 < kids.len(),
        0 <= l2 < kids.len(),
        l1 != l2,
        kids.no_duplicates(),
    ensures
        !(desc(edges, kids[l1], x) && desc(edges, kids[l2], x)),
{
    if desc(edges, kids[l1], x) && desc(edges, kids[l2], x) {
        lemma_children_of_edges(edges, id);
        assert(has_edge(edges, id, kids[l1]) && has_edge(edges, id, kids[l2]));
        assert(kids[l1] != kids[l2]);
        let n1 = choose|n1: nat| dpath(edges, kids[l1], x, n1);
        let n2 = choose|n2: nat| dpath(edges, kids[l2], x, n2);
        if n1 <= n2 {
            lemma_dpath_suffix(edges, kids[l1], kids[l2], x, n1, n2);
            lemma_sibling_not_ancestor(edges, id, kids[l2], kids[l1], (n2 - n1) as nat);
        } else {
            lemma_dpath_suffix(edges, kids[l2], kids[l1], x, n2, n1);
            lemma_sibling_not_ancestor(edges, id, kids[l1], kids[l2], (n1 - n2) as nat);
        }
    }
}

/// No child of `id` reaches a different child of `id` by a directed chain,
/// under a single-parent acyclic relation.
proof fn lemma_sibling_not_ancestor(
    edges: Seq<TodoRelationRow>,
    id: i64,
    a: i64,
    b: i64,
    k: nat,
)
    requires
        acyclic(edges),
        single_parent(edges),
        has_edge(edges, id, a),
        has_edge(edges, id, b),
        a != b,
    ensures
        !dpath(edges, a, b, k),
{
    if dpath(edges, a, b, k) {
        assert(k >= 1);
        let m = choose|m: i64| dpath(edges, a, m, (k - 1) as nat) && has_edge(edges, m, b);
        assert(m == id) by {
            let k1 = choose|k1: int|
                0 <= k1 < edges.len() && edges[k1].parent_id == m && edges[k1].child_id == b;
            let k2 = choose|k2: int|
                0 <= k2 < edges.len() && edges[k2].parent_id == id && edges[k2].child_id == b;
            if k1 != k2 {
                assert(edges[k1].child_id == edges[k2].child_id);
            }
        }
        lemma_dpath_prepend(edges, id, a, id, (k - 1) as nat);
        assert(!dpath(edges, id, id, k));
    }
}

/// Distinct root identifiers stand at distinct places in the root list.
proof fn lemma_root_ids_nodup(todos: Seq<TodoRow>, edges: Seq<TodoRelationRow>)
    requires
        unique_ids(todos),
    ensures
        root_ids(todos, edges).no_duplicates(),
    decreases todos.len(),
{
    if todos.len() > 0 {
        let pre = todos.subrange(0, todos.len() - 1);
        assert(unique_ids(pre)) by {
            assert forall|i: int, j: int| 0 <= i < j < pre.len() implies pre[i].id != pre[j].id by {
                assert(pre[i] == todos[i] && pre[j] == todos[j]);
            }
        }
        lemma_root_ids_nodup(pre, edges);
        let rp = root_ids(pre, edges);
        if !is_child(edges, todos[todos.len() - 1].id) {
            assert(!rp.contains(todos[todos.len() - 1].id)) by {
                if rp.contains(todos[todos.len() - 1].id) {
                    lemma_root_ids(pre, edges);
                    let j = choose|j: int|
                        0 <= j < rp.len() && rp[j] == todos[todos.len() - 1].id;
                    assert(has_item(pre, rp[j]));
                    let i = choose|i: int| 0 <= i < pre.len() && pre[i].id == rp[j];
                    assert(todos[i].id == todos[todos.len() - 1].id);
                }
            }
        }
    }
}

/// Every item that is never on the child side of an edge stands in the root
/// list.
proof fn lemma_root_ids_complete(todos: Seq<TodoRow>, edges: Seq<TodoRelationRow>)
    ensures
        forall|i: int|
            0 <= i < todos.len() && !is_child(edges, (#[trigger] todos[i]).id) ==> root_ids(
                todos,
                edges,
            ).contains(todos[i].id),
    decreases todos.len(),
{
    if todos.len() > 0 {
        let pre = todos.subrange(0, todos.len() - 1);
        lemma_root_ids_complete(pre, edges);
        let rp = root_ids(pre, edges);
        let r = root_ids(todos, edges);
        assert forall|i: int|
            0 <= i < todos.len() && !is_child(edges, (#[trigger] todos[i]).id) implies r.contains(
            todos[i].id,
        ) by {
            if i < todos.len() - 1 {
                assert(pre[i] == todos[i]);
                assert(rp.contains(todos[i].id));
                let j = choose|j: int| 0 <= j < rp.len() && rp[j] == todos[i].id;
                assert(r[j] == todos[i].id);
            } else {
                assert(r[r.len() - 1] == todos[i].id);
            }
        }
    }
}

/// Every item has a root ancestor: walking upwards from any item ends at an
/// item that is never on the child side of an edge. The ghost set carries
/// the items already passed on the walk.
proof fn lemma_has_root_ancestor(
    todos: Seq<TodoRow>,
    edges: Seq<TodoRelationRow>,
    x: i64,
    seen: Set<i64>,
)
    requires
        unique_ids(todos),
        acyclic(edges),
        edges_closed(todos, edges),
        has_item(todos, x),
        seen.finite(),
        !seen.contains(x),
        forall|s: i64| #[trigger] seen.contains(s) ==> has_item(todos, s),
        forall|s: i64| #[trigger]
            seen.contains(s) ==> exists|n: nat| 1 <= n && dpath(edges, x, s, n),
    ensures
        exists|r: i64| has_item(todos, r) && !is_child(edges, r) && desc(edges, r, x),
    decreases todos.len() - seen.len(),
{
    let seen2 = seen.insert(x);
    vstd::set::axiom_set_insert_len(seen, x);
    assert forall|s: i64| #[trigger] seen2.contains(s) implies has_item(todos, s) by {
        if s != x {
            assert(seen.contains(s));
        }
    }
    lemma_anc_len(seen2, todos);
    if !is_child(edges, x) {
        assert(dpath(edges, x, x, 0));
        assert(has_item(todos, x) && !is_child(edges, x) && desc(edges, x, x));
    } else {
        let k = choose|k: int| 0 <= k < edges.len() && edges[k].child_id == x;
        let p = edges[k].parent_id;
        assert(has_edge(edges, p, x));
        assert(has_item(todos, edges[k].parent_id));
        if p == x {
            assert(dpath(edges, x, x, 0));
            lemma_dpath_extend(edges, x, x, x, 0);
            assert(!dpath(edges, x, x, 1));
            assert(false);
        }
        if seen.contains(p) {
            let n = choose|n: nat| 1 <= n && dpath(edges, x, p, n);
            lemma_dpath_extend(edges, x, p, x, n);
            assert(!dpath(edges, x, x, n + 1));
            assert(false);
        }
        assert forall|s: i64| #[trigger] seen2.contains(s) implies exists|n: nat|
            1 <= n && dpath(edges, p, s, n) by {
            if s == x {
                assert(dpath(edges, p, p, 0));
                lemma_dpath_extend(edges, p, p, x, 0);
                assert(1 <= 1nat && dpath(edges, p, s, 1nat));
            } else {
                assert(seen.contains(s));
                let n = choose|n: nat| 1 <= n && dpath(edges, x, s, n);
                lemma_dpath_prepend(edges, p, x, s, n);
                assert(1 <= n + 1 && dpath(edges, p, s, (n + 1) as nat));
            }
        }
        lemma_has_root_ancestor(todos, edges, p, seen2);
        let r = choose|r: i64|
            has_item(todos, r) && !is_child(edges, r) && desc(edges, r, p);
        let n = choose|n: nat| dpath(edges, r, p, n);
        lemma_dpath_extend(edges, r, p, x, n);
        assert(desc(edges, r, x));
    }
}

/// A descendant of a known item is a known item.
proof fn lemma_desc_has_item(
    todos: Seq<TodoRow>,
    edges: Seq<TodoRelationRow>,
    r: i64,
    x: i64,
)
    requires
        edges_closed(todos, edges),
        has_item(todos, r),
        desc(edges, r, x),
    ensures
        has_item(todos, x),
{
    let n = choose|n: nat| dpath(edges, r, x, n);
    if n > 0 {
        let m = choose|m: i64| dpath(edges, r, m, (n - 1) as nat) && has_edge(edges, m, x);
        let k = choose|k: int|
            0 <= k < edges.len() && edges[k].parent_id == m && edges[k].child_id == x;
        assert(has_item(todos, edges[k].parent_id) && has_item(todos, edges[k].child_id));
    }
}

/// Two distinct roots have disjoint descendant sets under a single-parent
/// relation.
proof fn lemma_roots_disjoint(
    edges: Seq<TodoRelationRow>,
    r1: i64,
    r2: i64,
    x: i64,
)
    requires
        single_parent(edges),
        !is_child(edges, r1),
        !is_child(edges, r2),
        r1 != r2,
    ensures
        !(desc(edges, r1, x) && desc(edges, r2, x)),
{
    if desc(edges, r1, x) && desc(edges, r2, x) {
        let n1 = choose|n1: nat| dpath(edges, r1, x, n1);
        let n2 = choose|n2: nat| dpath(edges, r2, x, n2);
        if n1 <= n2 {
            lemma_dpath_suffix(edges, r1, r2, x, n1, n2);
            let k = (n2 - n1) as nat;
            assert(k >= 1);
            let m = choose|m: i64| dpath(edges, r2, m, (k - 1) as nat) && has_edge(edges, m, r1);
            let ke = choose|ke: int|
                0 <= ke < edges.len() && edges[ke].parent_id == m && edges[ke].child_id == r1;
            assert(is_child(edges, r1));
        } else {
            lemma_dpath_suffix(edges, r2, r1, x, n2, n1);
            let k = (n1 - n2) as nat;
            assert(k >= 1);
            let m = choose|m: i64| dpath(edges, r1, m, (k - 1) as nat) && has_edge(edges, m, r2);
            let ke = choose|ke: int|
                0 <= ke < edges.len() && edges[ke].parent_id == m && edges[ke].child_id == r2;
            assert(is_child(edges, r2));
        }
    }
}

/// Root exclusivity: on a well-formed snapshot (distinct item identifiers,
/// edges between known items, at most one parent per item, no directed
/// cycle) the display forest lists every item of the snapshot exactly once:
/// no duplication, no omission, nothing invented.
pub proof fn lemma_root_exclusivity(todos: Seq<TodoRow>, edges: Seq<TodoRelationRow>)
    requires
        unique_ids(todos),
        acyclic(edges),
        edges_closed(todos, edges),
        single_parent(edges),
    ensures
        forest_ids(spec_display(todos, edges)).no_duplicates(),
        forall|x: i64| forest_ids(spec_display(todos, edges)).contains(x) <==> has_item(todos, x),
{
    let roots = root_ids(todos, edges);
    let list = spec_build_list(todos, edges, roots, todos.len() as nat);
    let sorted = sort_desc(list);
    assert(spec_display(todos, edges) == sorted);
    lemma_root_ids(todos, edges);
    lemma_root_ids_nodup(todos, edges);
    lemma_root_ids_complete(todos, edges);
    lemma_build_list_index(todos, edges, roots, todos.len() as nat);

    assert forall|j: int| 0 <= j < roots.len() implies tree_ids(
        #[trigger] list[j],
    ).no_duplicates() && (forall|x: i64| tree_ids(list[j]).contains(x) <==> desc(
        edges,
        roots[j],
        x,
    )) && list[j].id == roots[j] by {
        assert(has_item(todos, roots[j]));
        assert(Set::<i64>::empty().len() == 0);
        lemma_tree_ids_exact(todos, edges, roots[j], Set::empty());
        assert(list[j] == spec_build(todos, edges, roots[j], todos.len() as nat));
    }

    assert(list.no_duplicates()) by {
        assert forall|j1: int, j2: int| 0 <= j1 < j2 < list.len() implies list[j1] != list[j2] by {
            assert(list[j1].id == roots[j1] && list[j2].id == roots[j2]);
        }
    }
    lemma_sort_desc_sorted(list);
    assert(sorted.to_set() =~= list.to_set()) by {
        assert forall|e: NodeView| sorted.to_set().contains(e) <==> list.to_set().contains(
            e,
        ) by {
            lemma_sort_desc_contains(list, e);
        }
    }
    list.unique_seq_to_set();
    sorted.lemma_no_dup_set_cardinality();
    assert(sorted.no_duplicates());

    assert forall|j1: int, j2: int| 0 <= j1 < j2 < sorted.len() implies ids_disjoint(
        tree_ids(#[trigger] sorted[j1]),
        tree_ids(#[trigger] sorted[j2]),
    ) by {
        assert(sorted.contains(sorted[j1]) && sorted.contains(sorted[j2]));
        lemma_sort_desc_contains(list, sorted[j1]);
        lemma_sort_desc_contains(list, sorted[j2]);
        let l1 = choose|l1: int| 0 <= l1 < list.len() && list[l1] == sorted[j1];
        let l2 = choose|l2: int| 0 <= l2 < list.len() && list[l2] == sorted[j2];
        assert(sorted[j1] != sorted[j2]);
        assert(l1 != l2);
        assert(roots[l1] != roots[l2]);
        assert forall|x: i64|
            !(tree_ids(sorted[j1]).contains(x) && tree_ids(sorted[j2]).contains(x)) by {
            if tree_ids(sorted[j1]).contains(x) && tree_ids(sorted[j2]).contains(x) {
                assert(desc(edges, roots[l1], x) && desc(edges, roots[l2], x));
                lemma_roots_disjoint(edges, roots[l1], roots[l2], x);
            }
        }
    }
    assert forall|j: int| 0 <= j < sorted.len() implies tree_ids(
        #[trigger] sorted[j],
    ).no_duplicates() by {
        assert(sorted.contains(sorted[j]));
        lemma_sort_desc_contains(list, sorted[j]);
        let l = choose|l: int| 0 <= l < list.len() && list[l] == sorted[j];
    }
    lemma_forest_ids_nodup(sorted);

    assert forall|x: i64| forest_ids(sorted).contains(x) <==> has_item(todos, x) by {
        lemma_forest_ids_membership(sorted, x);
        if forest_ids(sorted).contains(x) {
            let j = choose|j: int| 0 <= j < sorted.len() && tree_ids(sorted[j]).contains(x);
            assert(sorted.contains(sorted[j]));
            lemma_sort_desc_contains(list, sorted[j]);
            let l = choose|l: int| 0 <= l < list.len() && list[l] == sorted[j];
            assert(desc(edges, roots[l], x));
            lemma_desc_has_item(todos, edges, roots[l], x);
        }
        if has_item(todos, x) {
            lemma_has_root_ancestor(todos, edges, x, Set::empty());
            let r = choose|r: i64|
                has_item(todos, r) && !is_child(edges, r) && desc(edges, r, x);
            let i = choose|i: int| 0 <= i < todos.len() && todos[i].id == r;
            assert(roots.contains(todos[i].id));
            let l = choose|l: int| 0 <= l < roots.len() && roots[l] == r;
            assert(tree_ids(list[l]).contains(x));
            assert(list.contains(list[l]));
            lemma_sort_desc_contains(list, list[l]);
            let j = choose|j: int| 0 <= j < sorted.len() && sorted[j] == list[l];
            assert(tree_ids(sorted[j]).contains(x));
        }
    }
}

/// Materialization is idempotent: two forests built from the same snapshot
/// are identical.
pub proof fn lemma_display_idempotent(
    todos: Seq<TodoRow>,
    edges: Seq<TodoRelationRow>,
    r1: Seq<NodeView>,
    r2: Seq<NodeView>,
)
    requires
        r1 == spec_display(todos, edges),
        r2 == spec_display(todos, edges),
    ensures
        r1 == r2,
{
}

/// The shape of a sequence of display nodes is whatever agrees with it
/// element for element.
proof fn lemma_nodes_view_eq(a: Seq<TodoForDisplay>, b: Seq<NodeView>)
    requires
        b.len() == a.len(),
        forall|i: int| 0 <= i < a.len() ==> #[trigger] b[i] == node_view(a[i]),
    ensures
        nodes_view(a) == b,
{
    lemma_nodes_view(a);
    assert forall|i: int| 0 <= i < a.len() implies nodes_view(a)[i] == b[i] by {
        assert(nodes_view(a)[i] == node_view(a[i]));
        assert(b[i] == node_view(a[i]));
    }
    assert(nodes_view(a) =~= b);
}

/// The first row carrying `id`, if any.
fn find_todo(todos: &Vec<TodoRow>, id: i64) -> (r: Option<usize>)
    ensures
        match r {
            Some(i) => i < todos@.len() && todos@[i as int].id == id,
            None => !has_item(todos@, id),
        },
{
    let mut i: usize = 0;
    while i < todos.len()
        invariant
            0 <= i <= todos@.len(),
            forall|j: int| 0 <= j < i ==> todos@[j].id != id,
        decreases todos@.len() - i,
    {
        if todos[i].id == id {
            return Some(i);
        }
        i += 1;
    }
    None
}

/// Whether `id` stands on the child side of some edge.
fn is_child_exec(edges: &Vec<TodoRelationRow>, id: i64) -> (r: bool)
    ensures
        r == is_child(edges@, id),
{
    let mut k: usize = 0;
    while k < edges.len()
        invariant
            0 <= k <= edges@.len(),
            forall|j: int| 0 <= j < k ==> edges@[j].child_id != id,
        decreases edges@.len() - k,
    {
        if edges[k].child_id == id {
            return true;
        }
        k += 1;
    }
    false
}

/// The child identifiers of `p`, in edge order.
fn collect_children(edges: &Vec<TodoRelationRow>, p: i64) -> (r: Vec<i64>)
    ensures
        r@ == children_of(edges@, p),
{
    let mut kids: Vec<i64> = Vec::new();
    let mut k: usize = 0;
    while k < edges.len()
        invariant
            0 <= k <= edges@.len(),
            kids@ == children_of(edges@.subrange(0, k as int), p),
        decreases edges@.len() - k,
    {
        proof {
            let pre = edges@.subrange(0, k + 1);
            assert(pre.subrange(0, pre.len() - 1) == edges@.subrange(0, k as int));
            assert(pre[pre.len() - 1] == edges@[k as int]);
        }
        if edges[k].parent_id == p {
            kids.push(edges[k].child_id);
        }
        k += 1;
    }
    proof {
        assert(edges@.subrange(0, edges@.len() as int) == edges@);
    }
    kids
}

/// Whether `a` comes no later than `b` in display order.
fn key_ge_exec(a: &TodoForDisplay, b: &TodoForDisplay) -> (r: bool)
    ensures
        r == key_ge(node_view(*a), node_view(*b)),
{
    a.created_at > b.created_at || (a.created_at == b.created_at && a.id >= b.id)
}

/// Places `x` before the first element it does not come after.
fn insert_node_desc(v: Vec<TodoForDisplay>, x: TodoForDisplay) -> (r: Vec<TodoForDisplay>)
    ensures
        nodes_view(r@) == insert_desc(nodes_view(v@), node_view(x)),
    decreases v@.len(),
{
    let ghost v0 = v@;
    let ghost target = insert_desc(nodes_view(v0), node_view(x));
    proof {
        lemma_nodes_view(v0);
    }
    if v.len() == 0 {
        let mut r: Vec<TodoForDisplay> = Vec::new();
        r.push(x);
        proof {
            assert(nodes_view(v0) =~= Seq::<NodeView>::empty());
            assert(target =~= seq![node_view(x)]);
            lemma_nodes_view_eq(r@, target);
        }
        r
    } else if key_ge_exec(&x, &v[0]) {
        let mut v = v;
        v.insert(0, x);
        proof {
            assert(key_ge(node_view(x), nodes_view(v0)[0]));
            assert(target == seq![node_view(x)] + nodes_view(v0));
            assert forall|i: int| 0 <= i < v@.len() implies target[i] == node_view(
                #[trigger] v@[i],
            ) by {
                if i > 0 {
                    assert(v@[i] == v0[i - 1]);
                }
            }
            lemma_nodes_view_eq(v@, target);
        }
        v
    } else {
        let mut v = v;
        let first = v.remove(0);
        let ghost tail = v0.subrange(1, v0.len() as int);
        let ghost tail_view = nodes_view(v0).subrange(1, nodes_view(v0).len() as int);
        proof {
            assert(v@ =~= tail);
            lemma_nodes_view(tail);
            assert(nodes_view(tail) =~= tail_view) by {
                lemma_nodes_view(tail);
                lemma_nodes_view(v0);
                assert forall|i: int| 0 <= i < tail.len() implies nodes_view(tail)[i]
                    == tail_view[i] by {
                    assert(tail[i] == v0[i + 1]);
                    assert(nodes_view(tail)[i] == node_view(tail[i]));
                    assert(nodes_view(v0)[i + 1] == node_view(v0[i + 1]));
                    assert(tail_view[i] == nodes_view(v0)[i + 1]);
                }
            }
            assert(!key_ge(node_view(x), nodes_view(v0)[0]));
            assert(target == seq![nodes_view(v0)[0]] + insert_desc(tail_view, node_view(x)));
        }
        let mut r = insert_node_desc(v, x);
        let ghost r1 = r@;
        r.insert(0, first);
        proof {
            lemma_nodes_view(r1);
            assert forall|i: int| 0 <= i < r@.len() implies target[i] == node_view(
                #[trigger] r@[i],
            ) by {
                if i == 0 {
                    assert(r@[0] == first);
                    assert(node_view(first) == nodes_view(v0)[0]);
                } else {
                    assert(r@[i] == r1[i - 1]);
                    assert(target[i] == insert_desc(tail_view, node_view(x))[i - 1]);
                    assert(insert_desc(tail_view, node_view(x))[i - 1] == nodes_view(r1)[i - 1]);
                }
            }
            lemma_nodes_view_eq(r@, target);
        }
        r
    }
}

/// Sorts display nodes into display order: most recently created first, the
/// larger identifier breaking ties.
fn sort_nodes_desc(v: Vec<TodoForDisplay>) -> (r: Vec<TodoForDisplay>)
    ensures
        nodes_view(r@) == sort_desc(nodes_view(v@)),
    decreases v@.len(),
{
    let ghost v0 = v@;
    proof {
        lemma_nodes_view(v0);
    }
    if v.len() == 0 {
        proof {
            assert(nodes_view(v0) =~= Seq::<NodeView>::empty());
        }
        v
    } else {
        let mut v = v;
        let first = v.remove(0);
        let ghost tail = v0.subrange(1, v0.len() as int);
        let ghost tail_view = nodes_view(v0).subrange(1, nodes_view(v0).len() as int);
        proof {
            assert(v@ =~= tail);
            lemma_nodes_view(tail);
            assert(nodes_view(tail) =~= tail_view) by {
                lemma_nodes_view(tail);
                lemma_nodes_view(v0);
                assert forall|i: int| 0 <= i < tail.len() implies nodes_view(tail)[i]
                    == tail_view[i] by {
                    assert(tail[i] == v0[i + 1]);
                    assert(nodes_view(tail)[i] == node_view(tail[i]));
                    assert(nodes_view(v0)[i + 1] == node_view(v0[i + 1]));
                    assert(tail_view[i] == nodes_view(v0)[i + 1]);
                }
            }
            assert(node_view(first) == nodes_view(v0)[0]);
            assert(sort_desc(nodes_view(v0)) == insert_desc(
                sort_desc(tail_view),
                nodes_view(v0)[0],
            ));
        }
        let sorted = sort_nodes_desc(v);
        insert_node_desc(sorted, first)
    }
}

/// A relevant snapshot: the rows to display and the edges induced among
/// them, as the visibility selector hands them over.
#[derive(Debug)]
pub struct TodoInfo {
    pub todos: Vec<TodoRow>,
    pub edges: Vec<TodoRelationRow>,
}

impl TodoInfo {
    pub fn new(todos: Vec<TodoRow>, edges: Vec<TodoRelationRow>) -> (r: TodoInfo)
        ensures
            r.todos@ == todos@,
            r.edges@ == edges@,
    {
        TodoInfo { todos, edges }
    }

    /// The identifiers of the items that are never on the child side of an
    /// edge, in row order.
    fn get_root_nodes(&self) -> (r: Vec<i64>)
        ensures
            r@ == root_ids(self.todos@, self.edges@),
    {
        let mut roots: Vec<i64> = Vec::new();
        let mut i: usize = 0;
        while i < self.todos.len()
            invariant
                0 <= i <= self.todos@.len(),
                roots@ == root_ids(self.todos@.subrange(0, i as int), self.edges@),
            decreases self.todos@.len() - i,
        {
            proof {
                let pre = self.todos@.subrange(0, i + 1);
                assert(pre.subrange(0, pre.len() - 1) == self.todos@.subrange(0, i as int));
                assert(pre[pre.len() - 1] == self.todos@[i as int]);
            }
            if !is_child_exec(&self.edges, self.todos[i].id) {
                roots.push(self.todos[i].id);
            }
            i += 1;
        }
        proof {
            assert(self.todos@.subrange(0, self.todos@.len() as int) == self.todos@);
        }
        roots
    }

    /// Grows the display tree of `id`: the item's attributes over the trees
    /// of its children, most recently created first. The ghost set carries
    /// the ancestors of `id` on the walk; on an acyclic relation it grows at
    /// every level, which bounds the recursion.
    fn build_tree(&self, id: i64, anc: Ghost<Set<i64>>) -> (r: TodoForDisplay)
        requires
            unique_ids(self.todos@),
            acyclic(self.edges@),
            edges_closed(self.todos@, self.edges@),
            has_item(self.todos@, id),
            anc@.finite(),
            !anc@.contains(id),
            forall|a: i64| #[trigger] anc@.contains(a) ==> has_item(self.todos@, a),
            forall|a: i64| #[trigger]
                anc@.contains(a) ==> exists|n: nat| 1 <= n && dpath(self.edges@, a, id, n),
        ensures
            node_view(r) == spec_build(
                self.todos@,
                self.edges@,
                id,
                (self.todos@.len() - anc@.len()) as nat,
            ),
        decreases self.todos@.len() - anc@.len(),
    {
        let ghost t = self.todos@;
        let ghost e = self.edges@;
        let ghost anc2 = anc@.insert(id);
        let ghost fuel1 = (t.len() - anc2.len()) as nat;
        proof {
            vstd::set::axiom_set_insert_len(anc@, id);
            assert forall|a: i64| #[trigger] anc2.contains(a) implies has_item(t, a) by {
                if a != id {
                    assert(anc@.contains(a));
                }
            }
            lemma_anc_len(anc2, t);
            lemma_children_of_edges(e, id);
        }
        let idx = find_todo(&self.todos, id).unwrap();
        let kids = collect_children(&self.edges, id);
        let mut children: Vec<TodoForDisplay> = Vec::new();
        let mut j: usize = 0;
        while j < kids.len()
            invariant
                0 <= j <= kids@.len(),
                kids@ == children_of(e, id),
                self.todos@ == t,
                self.edges@ == e,
                unique_ids(t),
                acyclic(e),
                edges_closed(t, e),
                has_item(t, id),
                anc@.finite(),
                !anc@.contains(id),
                forall|a: i64| #[trigger] anc@.contains(a) ==> has_item(t, a),
                forall|a: i64| #[trigger]
                    anc@.contains(a) ==> exists|n: nat| 1 <= n && dpath(e, a, id, n),
                anc2 == anc@.insert(id),
                anc2.finite(),
                anc2.len() == anc@.len() + 1,
                anc2.len() <= t.len(),
                fuel1 == t.len() - anc2.len(),
                forall|a: i64| #[trigger] anc2.contains(a) ==> has_item(t, a),
                nodes_view(children@) == spec_build_list(t, e, kids@.subrange(0, j as int), fuel1),
            decreases kids@.len() - j,
        {
            let c = kids[j];
            proof {
                lemma_children_of_edges(e, id);
                assert(has_edge(e, id, c));
                let k = choose|k: int|
                    0 <= k < e.len() && e[k].parent_id == id && e[k].child_id == c;
                assert(has_item(t, e[k].parent_id) && has_item(t, e[k].child_id));
                assert(has_item(t, c));
                if c == id {
                    assert(dpath(e, id, id, 0));
                    lemma_dpath_extend(e, id, id, id, 0);
                    assert(!dpath(e, id, id, 1));
                    assert(false);
                }
                if anc@.contains(c) {
                    let n = choose|n: nat| 1 <= n && dpath(e, c, id, n);
                    lemma_dpath_extend(e, c, id, c, n);
                    assert(!dpath(e, c, c, n + 1));
                    assert(false);
                }
                assert(!anc2.contains(c));
                assert forall|a: i64| #[trigger] anc2.contains(a) implies exists|n: nat|
                    1 <= n && dpath(e, a, c, n) by {
                    if a == id {
                        assert(dpath(e, id, id, 0));
                        lemma_dpath_extend(e, id, id, c, 0);
                        assert(1 <= 1nat && dpath(e, a, c, 1nat));
                    } else {
                        assert(anc@.contains(a));
                        let n = choose|n: nat| 1 <= n && dpath(e, a, id, n);
                        lemma_dpath_extend(e, a, id, c, n);
                        assert(1 <= n + 1 && dpath(e, a, c, (n + 1) as nat));
                    }
                }
            }
            let ghost before = children@;
            let child = self.build_tree(c, Ghost(anc2));
            children.push(child);
            proof {
                let pre = kids@.subrange(0, j + 1);
                assert(pre.subrange(0, pre.len() - 1) == kids@.subrange(0, j as int));
                assert(pre[pre.len() - 1] == kids@[j as int]);
                let target = spec_build_list(t, e, pre, fuel1);
                assert(target == spec_build_list(t, e, kids@.subrange(0, j as int), fuel1).push(
                    spec_build(t, e, c, fuel1),
                ));
                lemma_nodes_view(before);
                assert forall|i2: int| 0 <= i2 < children@.len() implies #[trigger] target[i2]
                    == node_view(children@[i2]) by {
                    if i2 < before.len() {
                        assert(children@[i2] == before[i2]);
                        assert(target[i2] == nodes_view(before)[i2]);
                    } else {
                        assert(children@[i2] == child);
                        assert(target[i2] == spec_build(t, e, c, fuel1));
                    }
                }
                lemma_nodes_view_eq(children@, target);
            }
            j += 1;
        }
        proof {
            assert(kids@.subrange(0, kids@.len() as int) == kids@);
        }
        let sorted = sort_nodes_desc(children);
        let row = &self.todos[idx];
        let r = TodoForDisplay {
            id,
            description: row.description.clone(),
            completed: row.completed,
            children: sorted,
            created_at: row.created_at,
        };
        proof {
            let fuel = (t.len() - anc@.len()) as nat;
            let ci = choose|i2: int| 0 <= i2 < t.len() && t[i2].id == id;
            assert(t[ci].id == id && t[idx as int].id == id);
            assert(ci == idx) by {
                if ci < idx {
                    assert(t[ci].id != t[idx as int].id);
                }
                if idx < ci {
                    assert(t[idx as int].id != t[ci].id);
                }
            }
            assert(item_at(t, id) == t[idx as int]);
            assert(fuel == fuel1 + 1);
            assert(node_view(r).children == sort_desc(
                spec_build_list(t, e, children_of(e, id), fuel1),
            ));
            assert(node_view(r) == spec_build(t, e, id, fuel));
        }
        r
    }

    /// Materializes the snapshot as a forest of display nodes: the tree of
    /// every root item, with every level - the roots included - ordered most
    /// recently created first. Fails exactly when some edge references an
    /// identifier absent from the rows, and the error names such an edge.
    pub fn into_display(self) -> (r: Result<Vec<TodoForDisplay>, TodoofusError>)
        requires
            unique_ids(self.todos@),
            acyclic(self.edges@),
        ensures
            r is Ok <==> edges_closed(self.todos@, self.edges@),
            r is Ok ==> nodes_view(r->Ok_0@) == spec_display(self.todos@, self.edges@),
            r is Ok ==> sorted_desc(nodes_view(r->Ok_0@)),
            r is Ok ==> trees_ordered(nodes_view(r->Ok_0@)),
            r is Err ==> has_edge(self.edges@, r->Err_0.parent_id, r->Err_0.child_id) && (
            !has_item(self.todos@, r->Err_0.parent_id) || !has_item(
                self.todos@,
                r->Err_0.child_id,
            )),
    {
        let ghost t = self.todos@;
        let ghost e = self.edges@;

        // Defensive integrity check: every edge must name known items.
        let mut k: usize = 0;
        while k < self.edges.len()
            invariant
                0 <= k <= e.len(),
                self.todos@ == t,
                self.edges@ == e,
                forall|k2: int|
                    0 <= k2 < k ==> has_item(t, #[trigger] e[k2].parent_id) && has_item(
                        t,
                        e[k2].child_id,
                    ),
            decreases e.len() - k,
        {
            let edge = self.edges[k];
            proof {
                assert(has_edge(e, edge.parent_id, edge.child_id));
            }
            let pi = match find_todo(&self.todos, edge.parent_id) {
                Some(x) => x,
                None => {
                    return Err(
                        TodoofusError { parent_id: edge.parent_id, child_id: edge.child_id },
                    );
                },
            };
            let ci = match find_todo(&self.todos, edge.child_id) {
                Some(x) => x,
                None => {
                    return Err(
                        TodoofusError { parent_id: edge.parent_id, child_id: edge.child_id },
                    );
                },
            };
            proof {
                assert(t[pi as int].id == edge.parent_id);
                assert(has_item(t, edge.parent_id));
                assert(t[ci as int].id == edge.child_id);
                assert(has_item(t, edge.child_id));
                assert(edge == e[k as int]);
                assert(has_item(t, e[k as int].parent_id) && has_item(t, e[k as int].child_id));
                assert forall|k2: int| 0 <= k2 < k + 1 implies has_item(
                    t,
                    #[trigger] e[k2].parent_id,
                ) && has_item(t, e[k2].child_id) by {
                    if k2 < k {
                        assert(has_item(t, e[k2].parent_id) && has_item(t, e[k2].child_id));
                    } else {
                        assert(e[k2] == e[k as int]);
                    }
                }
            }
            k += 1;
        }

        let roots = self.get_root_nodes();
        let mut forest: Vec<TodoForDisplay> = Vec::new();
        let mut i: usize = 0;
        while i < roots.len()
            invariant
                0 <= i <= roots@.len(),
                roots@ == root_ids(t, e),
                self.todos@ == t,
                self.edges@ == e,
                unique_ids(t),
                acyclic(e),
                edges_closed(t, e),
                nodes_view(forest@) == spec_build_list(
                    t,
                    e,
                    roots@.subrange(0, i as int),
                    t.len() as nat,
                ),
            decreases roots@.len() - i,
        {
            let rid = roots[i];
            proof {
                lemma_root_ids(t, e);
                assert(has_item(t, roots@[i as int]));
            }
            let ghost before = forest@;
            let node = self.build_tree(rid, Ghost(Set::empty()));
            forest.push(node);
            proof {
                assert(Set::<i64>::empty().len() == 0);
                assert(node_view(node) == spec_build(t, e, rid, t.len() as nat));
                let pre = roots@.subrange(0, i + 1);
                assert(pre.subrange(0, pre.len() - 1) == roots@.subrange(0, i as int));
                assert(pre[pre.len() - 1] == roots@[i as int]);
                let target = spec_build_list(t, e, pre, t.len() as nat);
                lemma_nodes_view(before);
                assert forall|i2: int| 0 <= i2 < forest@.len() implies #[trigger] target[i2]
                    == node_view(forest@[i2]) by {
                    if i2 < before.len() {
                        assert(forest@[i2] == before[i2]);
                        assert(target[i2] == nodes_view(before)[i2]);
                    } else {
                        assert(forest@[i2] == node);
                    }
                }
                lemma_nodes_view_eq(forest@, target);
            }
            i += 1;
        }
        proof {
            assert(roots@.subrange(0, roots@.len() as int) == roots@);
        }
        let sorted = sort_nodes_desc(forest);
        proof {
            let list = spec_build_list(t, e, root_ids(t, e), t.len() as nat);
            lemma_sort_desc_sorted(list);
            lemma_build_list_ordered(t, e, root_ids(t, e), t.len() as nat);
            let sv = sort_desc(list);
            assert forall|i2: int| 0 <= i2 < sv.len() implies tree_ordered(#[trigger] sv[i2]) by {
                assert(sv.contains(sv[i2]));
                lemma_sort_desc_contains(list, sv[i2]);
                let j2 = choose|j2: int| 0 <= j2 < list.len() && list[j2] == sv[i2];
                assert(tree_ordered(list[j2]));
            }
        }
        Ok(sorted)
    }
}

} // verus!
