//! Visibility selector: the closure of relevant items.
//!
//! An item is relevant when it satisfies the base predicate (unfinished, or
//! created at or after a cutoff time), or when it is joined by a chain of
//! parent/child edges - walked in either direction - to an item that does.
//! [`select_relevant`] computes exactly that closure and the edge relation it
//! induces.

use vstd::prelude::*;

use crate::errors::TodoofusError;
use crate::todos::{
    forest_ids, lemma_root_exclusivity, nodes_view, sorted_desc, spec_display, trees_ordered,
    TodoForDisplay, TodoInfo, TodoRelationRow, TodoRow,
};

verus! {

/// The base predicate: an item is relevant on its own when it is unfinished
/// or was created at or after the cutoff time.
pub open spec fn base_pred(t: TodoRow, cutoff: i64) -> bool {
    !t.completed || t.created_at >= cutoff
}

/// No two rows carry the same identifier.
pub open spec fn unique_ids(todos: Seq<TodoRow>) -> bool {
    forall|i: int, j: int| 0 <= i < j < todos.len() ==> todos[i].id != todos[j].id
}

/// Some row carries the identifier `id`.
pub open spec fn has_item(todos: Seq<TodoRow>, id: i64) -> bool {
    exists|i: int| 0 <= i < todos.len() && todos[i].id == id
}

/// The relation holds a parent-to-child edge from `p` to `c`.
pub open spec fn has_edge(edges: Seq<TodoRelationRow>, p: i64, c: i64) -> bool {
    exists|k: int| 0 <= k < edges.len() && edges[k].parent_id == p && edges[k].child_id == c
}

/// Both endpoints of every edge name a row of the item collection.
pub open spec fn edges_closed(todos: Seq<TodoRow>, edges: Seq<TodoRelationRow>) -> bool {
    forall|k: int|
        0 <= k < edges.len() ==> has_item(todos, #[trigger] edges[k].parent_id) && has_item(
            todos,
            edges[k].child_id,
        )
}

/// `a` and `b` are joined by an edge taken in either direction.
pub open spec fn adjacent(edges: Seq<TodoRelationRow>, a: i64, b: i64) -> bool {
    has_edge(edges, a, b) || has_edge(edges, b, a)
}

/// A chain of `n` edges, each taken in either direction, leads from `a` to
/// `b`.
pub open spec fn upath(edges: Seq<TodoRelationRow>, a: i64, b: i64, n: nat) -> bool
    decreases n,
{
    if n == 0 {
        a == b
    } else {
        exists|m: i64| upath(edges, a, m, (n - 1) as nat) && adjacent(edges, m, b)
    }
}

/// A chain of `n` edges, each taken parent to child, leads from `a` to `b`.
pub open spec fn dpath(edges: Seq<TodoRelationRow>, a: i64, b: i64, n: nat) -> bool
    decreases n,
{
    if n == 0 {
        a == b
    } else {
        exists|m: i64| dpath(edges, a, m, (n - 1) as nat) && has_edge(edges, m, b)
    }
}

/// No identifier lies on a directed cycle.
pub open spec fn acyclic(edges: Seq<TodoRelationRow>) -> bool {
    forall|x: i64, n: nat| 1 <= n ==> !dpath(edges, x, x, n)
}

/// Each identifier stands on the child side of at most one edge: the
/// relation is a forest when it is also acyclic.
pub open spec fn single_parent(edges: Seq<TodoRelationRow>) -> bool {
    forall|k1: int, k2: int|
        0 <= k1 < k2 < edges.len() ==> (#[trigger] edges[k1]).child_id != (
        #[trigger] edges[k2]).child_id
}

/// A nonempty directed chain starts with an edge out of its start.
pub proof fn lemma_dpath_first_step(edges: Seq<TodoRelationRow>, a: i64, b: i64, n: nat)
    requires
        dpath(edges, a, b, n),
        n >= 1,
    ensures
        exists|c: i64| has_edge(edges, a, c) && dpath(edges, c, b, (n - 1) as nat),
    decreases n,
{
    let m = choose|m: i64| dpath(edges, a, m, (n - 1) as nat) && has_edge(edges, m, b);
    if n == 1 {
        assert(m == a);
        assert(dpath(edges, b, b, 0));
        assert(has_edge(edges, a, b) && dpath(edges, b, b, 0nat));
    } else {
        lemma_dpath_first_step(edges, a, m, (n - 1) as nat);
        let c = choose|c: i64| has_edge(edges, a, c) && dpath(edges, c, m, (n - 2) as nat);
        assert(dpath(edges, c, b, (n - 1) as nat));
    }
}

/// Under a single-parent relation, two chains into the same identifier
/// nest: the start of the shorter lies on the longer.
pub proof fn lemma_dpath_suffix(
    edges: Seq<TodoRelationRow>,
    a: i64,
    b: i64,
    x: i64,
    n: nat,
    m: nat,
)
    requires
        single_parent(edges),
        dpath(edges, a, x, n),
        dpath(edges, b, x, m),
        n <= m,
    ensures
        dpath(edges, b, a, (m - n) as nat),
    decreases n,
{
    if n > 0 {
        let m1 = choose|m1: i64| dpath(edges, a, m1, (n - 1) as nat) && has_edge(edges, m1, x);
        let m2 = choose|m2: i64| dpath(edges, b, m2, (m - 1) as nat) && has_edge(edges, m2, x);
        assert(m1 == m2) by {
            let k1 = choose|k1: int|
                0 <= k1 < edges.len() && edges[k1].parent_id == m1 && edges[k1].child_id == x;
            let k2 = choose|k2: int|
                0 <= k2 < edges.len() && edges[k2].parent_id == m2 && edges[k2].child_id == x;
            if k1 != k2 {
                assert(edges[k1].child_id == edges[k2].child_id);
            }
        }
        lemma_dpath_suffix(edges, a, b, m1, (n - 1) as nat, (m - 1) as nat);
    }
}

/// `x` belongs to the closure of the base predicate under the edge relation:
/// some item satisfies the base predicate and is joined to `x` by a chain of
/// edges walked in either direction.
pub open spec fn in_closure(
    todos: Seq<TodoRow>,
    edges: Seq<TodoRelationRow>,
    cutoff: i64,
    x: i64,
) -> bool {
    exists|i: int, n: nat|
        0 <= i < todos.len() && base_pred(todos[i], cutoff) && upath(edges, todos[i].id, x, n)
}

/// The rows of `rem` whose identifier lies in the closure, in their original
/// order.
pub open spec fn relevant_rows(
    rem: Seq<TodoRow>,
    todos: Seq<TodoRow>,
    edges: Seq<TodoRelationRow>,
    cutoff: i64,
) -> Seq<TodoRow>
    decreases rem.len(),
{
    if rem.len() == 0 {
        Seq::empty()
    } else {
        let rest = relevant_rows(rem.subrange(0, rem.len() - 1), todos, edges, cutoff);
        if in_closure(todos, edges, cutoff, rem[rem.len() - 1].id) {
            rest.push(rem[rem.len() - 1])
        } else {
            rest
        }
    }
}

/// The edges of `rem` whose endpoints both lie in the closure, in their
/// original order.
pub open spec fn induced_edges(
    rem: Seq<TodoRelationRow>,
    todos: Seq<TodoRow>,
    edges: Seq<TodoRelationRow>,
    cutoff: i64,
) -> Seq<TodoRelationRow>
    decreases rem.len(),
{
    if rem.len() == 0 {
        Seq::empty()
    } else {
        let rest = induced_edges(rem.subrange(0, rem.len() - 1), todos, edges, cutoff);
        if in_closure(todos, edges, cutoff, rem[rem.len() - 1].parent_id) && in_closure(
            todos,
            edges,
            cutoff,
            rem[rem.len() - 1].child_id,
        ) {
            rest.push(rem[rem.len() - 1])
        } else {
            rest
        }
    }
}

/// A one-edge chain: adjacency extends a chain by one step.
pub proof fn lemma_upath_extend(edges: Seq<TodoRelationRow>, a: i64, m: i64, b: i64, n: nat)
    requires
        upath(edges, a, m, n),
        adjacent(edges, m, b),
    ensures
        upath(edges, a, b, n + 1),
{
}

/// The closure is closed under adjacency: a neighbour of a member is a
/// member.
pub proof fn lemma_in_closure_step(
    todos: Seq<TodoRow>,
    edges: Seq<TodoRelationRow>,
    cutoff: i64,
    x: i64,
    y: i64,
)
    requires
        in_closure(todos, edges, cutoff, x),
        adjacent(edges, x, y),
    ensures
        in_closure(todos, edges, cutoff, y),
{
    let (i, n) = choose|i: int, n: nat|
        0 <= i < todos.len() && base_pred(todos[i], cutoff) && upath(edges, todos[i].id, x, n);
    lemma_upath_extend(edges, todos[i].id, x, y, n);
}

/// Every member of the closure lies in any identifier set that contains all
/// items satisfying the base predicate and is closed across every edge.
/// This is the minimality of the closure: the selector never includes an
/// item unless the base predicate or a chain of relevant neighbours forces
/// it.
pub proof fn lemma_closure_minimal(
    todos: Seq<TodoRow>,
    edges: Seq<TodoRelationRow>,
    cutoff: i64,
    s: Set<i64>,
)
    requires
        forall|i: int|
            0 <= i < todos.len() && base_pred(#[trigger] todos[i], cutoff) ==> s.contains(
                todos[i].id,
            ),
        forall|k: int|
            0 <= k < edges.len() ==> (s.contains(#[trigger] edges[k].parent_id) <==> s.contains(
                edges[k].child_id,
            )),
    ensures
        forall|x: i64| in_closure(todos, edges, cutoff, x) ==> s.contains(x),
{
    assert forall|x: i64| in_closure(todos, edges, cutoff, x) implies s.contains(x) by {
        let (i, n) = choose|i: int, n: nat|
            0 <= i < todos.len() && base_pred(todos[i], cutoff) && upath(edges, todos[i].id, x, n);
        lemma_closed_set_upath(edges, s, todos[i].id, x, n);
    }
}

/// Walking a chain of edges never leaves a set that contains its start and
/// is closed across every edge.
pub proof fn lemma_closed_set_upath(
    edges: Seq<TodoRelationRow>,
    s: Set<i64>,
    a: i64,
    b: i64,
    n: nat,
)
    requires
        s.contains(a),
        upath(edges, a, b, n),
        forall|k: int|
            0 <= k < edges.len() ==> (s.contains(#[trigger] edges[k].parent_id) <==> s.contains(
                edges[k].child_id,
            )),
    ensures
        s.contains(b),
    decreases n,
{
    if n > 0 {
        let m = choose|m: i64| upath(edges, a, m, (n - 1) as nat) && adjacent(edges, m, b);
        lemma_closed_set_upath(edges, s, a, m, (n - 1) as nat);
        if has_edge(edges, m, b) {
            let k = choose|k: int|
                0 <= k < edges.len() && edges[k].parent_id == m && edges[k].child_id == b;
            assert(s.contains(edges[k].parent_id));
        } else {
            let k = choose|k: int|
                0 <= k < edges.len() && edges[k].parent_id == b && edges[k].child_id == m;
            assert(s.contains(edges[k].child_id));
        }
    }
}

/// Both endpoints of an edge stand or fall together: one is in the closure
/// exactly when the other is. This is the full upward and downward closure
/// of the relevant set.
pub proof fn lemma_closure_edge(
    todos: Seq<TodoRow>,
    edges: Seq<TodoRelationRow>,
    cutoff: i64,
    k: int,
)
    requires
        0 <= k < edges.len(),
    ensures
        in_closure(todos, edges, cutoff, edges[k].parent_id) <==> in_closure(
            todos,
            edges,
            cutoff,
            edges[k].child_id,
        ),
{
    let p = edges[k].parent_id;
    let c = edges[k].child_id;
    assert(has_edge(edges, p, c));
    if in_closure(todos, edges, cutoff, p) {
        lemma_in_closure_step(todos, edges, cutoff, p, c);
    }
    if in_closure(todos, edges, cutoff, c) {
        lemma_in_closure_step(todos, edges, cutoff, c, p);
    }
}

/// Whether `v` holds the identifier `x`.
fn contains_id(v: &Vec<i64>, x: i64) -> (r: bool)
    ensures
        r == v@.contains(x),
{
    let mut i: usize = 0;
    while i < v.len()
        invariant
            0 <= i <= v@.len(),
            forall|j: int| 0 <= j < i ==> v@[j] != x,
        decreases v@.len() - i,
    {
        if v[i] == x {
            return true;
        }
        i += 1;
    }
    false
}

/// A duplicate-free sequence of item identifiers is no longer than the item
/// collection it draws from.
proof fn lemma_ids_len(rel: Seq<i64>, todos: Seq<TodoRow>)
    requires
        rel.no_duplicates(),
        forall|x: i64| rel.contains(x) ==> has_item(todos, x),
    ensures
        rel.len() <= todos.len(),
{
    let ids = todos.map_values(|t: TodoRow| t.id);
    rel.unique_seq_to_set();
    ids.lemma_cardinality_of_set();
    assert forall|x: i64| rel.to_set().contains(x) implies ids.to_set().contains(x) by {
        let i = choose|i: int| 0 <= i < todos.len() && todos[i].id == x;
        assert(ids[i] == x);
    }
    vstd::set_lib::lemma_len_subset(rel.to_set(), ids.to_set());
    assert(ids.len() == todos.len());
}

/// Pushing an identifier that is itself a member of the closure, an item
/// identifier, and fresh, keeps the running facts of the closure loop.
proof fn lemma_push_keeps_facts(
    before: Seq<i64>,
    after: Seq<i64>,
    todos: Seq<TodoRow>,
    edges: Seq<TodoRelationRow>,
    cutoff: i64,
    y: i64,
)
    requires
        after == before.push(y),
        before.no_duplicates(),
        !before.contains(y),
        has_item(todos, y),
        in_closure(todos, edges, cutoff, y),
        forall|x: i64| before.contains(x) ==> has_item(todos, x),
        forall|x: i64| before.contains(x) ==> in_closure(todos, edges, cutoff, x),
    ensures
        after.no_duplicates(),
        forall|x: i64| after.contains(x) ==> has_item(todos, x),
        forall|x: i64| after.contains(x) ==> in_closure(todos, edges, cutoff, x),
        forall|x: i64| before.contains(x) ==> after.contains(x),
        after.len() == before.len() + 1,
{
    assert forall|x: i64| after.contains(x) implies has_item(todos, x) && in_closure(
        todos,
        edges,
        cutoff,
        x,
    ) by {
        if x != y {
            let j = choose|j: int| 0 <= j < after.len() && after[j] == x;
            assert(before[j] == x);
            assert(before.contains(x));
        }
    }
    assert forall|x: i64| before.contains(x) implies after.contains(x) by {
        let j = choose|j: int| 0 <= j < before.len() && before[j] == x;
        assert(after[j] == x);
    }
}

/// The identifiers of the closure: `r` holds an identifier exactly when it
/// belongs to the closure of the base predicate under the edge relation.
fn relevant_ids(todos: &Vec<TodoRow>, edges: &Vec<TodoRelationRow>, cutoff: i64) -> (r: Vec<i64>)
    requires
        unique_ids(todos@),
        edges_closed(todos@, edges@),
    ensures
        forall|x: i64| r@.contains(x) <==> in_closure(todos@, edges@, cutoff, x),
{
    let mut rel: Vec<i64> = Vec::new();

    // Seed: every item satisfying the base predicate.
    let mut i: usize = 0;
    while i < todos.len()
        invariant
            0 <= i <= todos@.len(),
            unique_ids(todos@),
            rel@.no_duplicates(),
            forall|x: i64| rel@.contains(x) ==> has_item(todos@, x),
            forall|x: i64|
                rel@.contains(x) ==> exists|j: int|
                    0 <= j < i && base_pred(#[trigger] todos@[j], cutoff) && todos@[j].id == x,
            forall|j: int|
                0 <= j < i && base_pred(#[trigger] todos@[j], cutoff) ==> rel@.contains(
                    todos@[j].id,
                ),
        decreases todos@.len() - i,
    {
        let t = &todos[i];
        if !t.completed || t.created_at >= cutoff {
            if !contains_id(&rel, t.id) {
                let ghost before = rel@;
                rel.push(t.id);
                proof {
                    assert forall|x: i64| rel@.contains(x) implies has_item(todos@, x) && exists|
                        j: int,
                    |
                        0 <= j < i + 1 && base_pred(#[trigger] todos@[j], cutoff) && todos@[j].id
                            == x by {
                        if before.contains(x) {
                        } else {
                            assert(x == todos@[i as int].id);
                            assert(base_pred(todos@[i as int], cutoff) && todos@[i as int].id == x);
                        }
                    }
                    assert forall|j: int|
                        0 <= j < i + 1 && base_pred(#[trigger] todos@[j], cutoff) implies
                    rel@.contains(todos@[j].id) by {
                        if j < i {
                            assert(before.contains(todos@[j].id));
                            assert(rel@[before.index_of(todos@[j].id)] == todos@[j].id);
                        } else {
                            assert(rel@[rel@.len() - 1] == todos@[j].id);
                        }
                    }
                }
            }
        }
        i += 1;
    }

    proof {
        assert forall|x: i64| rel@.contains(x) implies in_closure(todos@, edges@, cutoff, x) by {
            let j = choose|j: int|
                0 <= j < todos@.len() && base_pred(#[trigger] todos@[j], cutoff) && todos@[j].id
                    == x;
            assert(upath(edges@, todos@[j].id, x, 0));
        }
        lemma_ids_len(rel@, todos@);
    }

    // Closure: add the other endpoint of any edge with one endpoint already
    // relevant, until a full pass changes nothing.
    let mut changed = true;
    while changed
        invariant
            unique_ids(todos@),
            edges_closed(todos@, edges@),
            rel@.no_duplicates(),
            rel@.len() <= todos@.len(),
            forall|x: i64| rel@.contains(x) ==> has_item(todos@, x),
            forall|x: i64| rel@.contains(x) ==> in_closure(todos@, edges@, cutoff, x),
            forall|j: int|
                0 <= j < todos@.len() && base_pred(#[trigger] todos@[j], cutoff) ==> rel@.contains(
                    todos@[j].id,
                ),
            !changed ==> forall|k: int|
                0 <= k < edges@.len() ==> (rel@.contains(#[trigger] edges@[k].parent_id)
                    <==> rel@.contains(edges@[k].child_id)),
        decreases 2 * (todos@.len() - rel@.len()) + (if changed { 1int } else { 0int }),
    {
        changed = false;
        let ghost rel0 = rel@;
        let mut k: usize = 0;
        while k < edges.len()
            invariant
                0 <= k <= edges@.len(),
                unique_ids(todos@),
                edges_closed(todos@, edges@),
                rel@.no_duplicates(),
                rel@.len() <= todos@.len(),
                forall|x: i64| rel@.contains(x) ==> has_item(todos@, x),
                forall|x: i64| rel@.contains(x) ==> in_closure(todos@, edges@, cutoff, x),
                forall|j: int|
                    0 <= j < todos@.len() && base_pred(#[trigger] todos@[j], cutoff)
                        ==> rel@.contains(todos@[j].id),
                !changed ==> rel@ == rel0,
                !changed ==> forall|k2: int|
                    0 <= k2 < k ==> (rel@.contains(#[trigger] edges@[k2].parent_id)
                        <==> rel@.contains(edges@[k2].child_id)),
                changed ==> rel@.len() > rel0.len(),
                rel0.len() <= rel@.len(),
            decreases edges@.len() - k,
        {
            let p = edges[k].parent_id;
            let c = edges[k].child_id;
            let has_p = contains_id(&rel, p);
            let has_c = contains_id(&rel, c);
            if has_c && !has_p {
                proof {
                    assert(has_edge(edges@, p, c));
                    lemma_in_closure_step(todos@, edges@, cutoff, c, p);
                    assert(has_item(todos@, p)) by {
                        assert(edges@[k as int].parent_id == p);
                    }
                }
                let ghost before = rel@;
                rel.push(p);
                changed = true;
                proof {
                    lemma_push_keeps_facts(before, rel@, todos@, edges@, cutoff, p);
                    lemma_ids_len(rel@, todos@);
                }
            } else if has_p && !has_c {
                proof {
                    assert(has_edge(edges@, p, c));
                    lemma_in_closure_step(todos@, edges@, cutoff, p, c);
                    assert(has_item(todos@, c)) by {
                        assert(edges@[k as int].parent_id == p);
                    }
                }
                let ghost before = rel@;
                rel.push(c);
                changed = true;
                proof {
                    lemma_push_keeps_facts(before, rel@, todos@, edges@, cutoff, c);
                    lemma_ids_len(rel@, todos@);
                }
            }
            k += 1;
        }
    }

    proof {
        assert forall|x: i64| in_closure(todos@, edges@, cutoff, x) implies rel@.contains(x) by {
            let s = rel@.to_set();
            assert forall|i2: int|
                0 <= i2 < todos@.len() && base_pred(#[trigger] todos@[i2], cutoff) implies
            s.contains(todos@[i2].id) by {
                assert(rel@.contains(todos@[i2].id));
            }
            assert forall|k: int| 0 <= k < edges@.len() implies (s.contains(
                #[trigger] edges@[k].parent_id,
            ) <==> s.contains(edges@[k].child_id)) by {
                assert(rel@.contains(edges@[k].parent_id) <==> rel@.contains(edges@[k].child_id));
            }
            lemma_closure_minimal(todos@, edges@, cutoff, s);
        }
    }
    rel
}

/// Computes the relevant subset of a snapshot: the rows whose identifier
/// lies in the closure of the base predicate under the edge relation, in
/// their original order, together with the edges the closure induces (those
/// with both endpoints relevant).
pub fn select_relevant(todos: Vec<TodoRow>, edges: Vec<TodoRelationRow>, cutoff: i64) -> (r: (
    Vec<TodoRow>,
    Vec<TodoRelationRow>,
))
    requires
        unique_ids(todos@),
        edges_closed(todos@, edges@),
    ensures
        r.0@ == relevant_rows(todos@, todos@, edges@, cutoff),
        r.1@ == induced_edges(edges@, todos@, edges@, cutoff),
{
    let ghost t_seq = todos@;
    let ghost e_seq = edges@;
    let rel = relevant_ids(&todos, &edges, cutoff);

    let mut kept_rows: Vec<TodoRow> = Vec::new();
    let mut rest = todos;
    while rest.len() > 0
        invariant
            rest@.len() <= t_seq.len(),
            rest@ == t_seq.subrange(t_seq.len() - rest@.len(), t_seq.len() as int),
            forall|x: i64| rel@.contains(x) <==> in_closure(t_seq, e_seq, cutoff, x),
            kept_rows@ == relevant_rows(
                t_seq.subrange(0, t_seq.len() - rest@.len()),
                t_seq,
                e_seq,
                cutoff,
            ),
        decreases rest@.len(),
    {
        let ghost i = t_seq.len() - rest@.len();
        let t = rest.remove(0);
        proof {
            assert(t == t_seq[i]);
            assert(rest@ == t_seq.subrange(t_seq.len() - rest@.len(), t_seq.len() as int));
            let pre = t_seq.subrange(0, i + 1);
            assert(pre.subrange(0, pre.len() - 1) == t_seq.subrange(0, i));
            assert(pre[pre.len() - 1] == t_seq[i]);
        }
        if contains_id(&rel, t.id) {
            kept_rows.push(t);
        }
    }
    proof {
        assert(t_seq.subrange(0, t_seq.len() as int) == t_seq);
    }

    let mut kept_edges: Vec<TodoRelationRow> = Vec::new();
    let mut k: usize = 0;
    while k < edges.len()
        invariant
            0 <= k <= e_seq.len(),
            edges@ == e_seq,
            forall|x: i64| rel@.contains(x) <==> in_closure(t_seq, e_seq, cutoff, x),
            kept_edges@ == induced_edges(e_seq.subrange(0, k as int), t_seq, e_seq, cutoff),
        decreases e_seq.len() - k,
    {
        let e = edges[k];
        proof {
            let pre = e_seq.subrange(0, k + 1);
            assert(pre.subrange(0, pre.len() - 1) == e_seq.subrange(0, k as int));
            assert(pre[pre.len() - 1] == e_seq[k as int]);
        }
        if contains_id(&rel, e.parent_id) && contains_id(&rel, e.child_id) {
            kept_edges.push(e);
        }
        k += 1;
    }
    proof {
        assert(e_seq.subrange(0, e_seq.len() as int) == e_seq);
    }

    (kept_rows, kept_edges)
}

/// The relevant rows are rows of the snapshot, keep distinct identifiers,
/// lie in the closure, and miss no row whose identifier lies in it.
pub proof fn lemma_relevant_rows_sub(
    rem: Seq<TodoRow>,
    todos: Seq<TodoRow>,
    edges: Seq<TodoRelationRow>,
    cutoff: i64,
)
    ensures
        forall|i: int|
            0 <= i < relevant_rows(rem, todos, edges, cutoff).len() ==> rem.contains(
                #[trigger] relevant_rows(rem, todos, edges, cutoff)[i],
            ) && in_closure(todos, edges, cutoff, relevant_rows(rem, todos, edges, cutoff)[i].id),
        unique_ids(rem) ==> unique_ids(relevant_rows(rem, todos, edges, cutoff)),
        forall|j: int|
            0 <= j < rem.len() && in_closure(todos, edges, cutoff, (#[trigger] rem[j]).id)
                ==> relevant_rows(rem, todos, edges, cutoff).contains(rem[j]),
    decreases rem.len(),
{
    let r = relevant_rows(rem, todos, edges, cutoff);
    if rem.len() > 0 {
        let pre = rem.subrange(0, rem.len() - 1);
        lemma_relevant_rows_sub(pre, todos, edges, cutoff);
        let rp = relevant_rows(pre, todos, edges, cutoff);
        assert forall|i: int| 0 <= i < r.len() implies rem.contains(#[trigger] r[i]) && in_closure(
            todos,
            edges,
            cutoff,
            r[i].id,
        ) by {
            if i < rp.len() {
                assert(r[i] == rp[i]);
                assert(pre.contains(rp[i]));
                let j = choose|j: int| 0 <= j < pre.len() && pre[j] == rp[i];
                assert(rem[j] == rp[i]);
            } else {
                assert(r[i] == rem[rem.len() - 1]);
            }
        }
        if unique_ids(rem) {
            assert(unique_ids(pre)) by {
                assert forall|i: int, j: int| 0 <= i < j < pre.len() implies pre[i].id != pre[j].id
                    by {
                    assert(pre[i] == rem[i] && pre[j] == rem[j]);
                }
            }
            assert forall|i: int, j: int| 0 <= i < j < r.len() implies r[i].id != r[j].id by {
                if j < rp.len() {
                    assert(r[i] == rp[i] && r[j] == rp[j]);
                } else {
                    assert(r[j] == rem[rem.len() - 1]);
                    assert(r[i] == rp[i]);
                    assert(pre.contains(rp[i]));
                    let j2 = choose|j2: int| 0 <= j2 < pre.len() && pre[j2] == rp[i];
                    assert(rem[j2] == rp[i]);
                    assert(rem[j2].id != rem[rem.len() - 1].id);
                }
            }
        }
        assert forall|j: int|
            0 <= j < rem.len() && in_closure(todos, edges, cutoff, (#[trigger] rem[j]).id) implies
        r.contains(rem[j]) by {
            if j < rem.len() - 1 {
                assert(pre[j] == rem[j]);
                assert(rp.contains(rem[j]));
                let j2 = choose|j2: int| 0 <= j2 < rp.len() && rp[j2] == rem[j];
                assert(r[j2] == rem[j]);
            } else {
                assert(r[r.len() - 1] == rem[j]);
            }
        }
    }
}

/// The induced edges are edges of the snapshot whose endpoints both lie in
/// the closure.
pub proof fn lemma_induced_edges_sub(
    rem: Seq<TodoRelationRow>,
    todos: Seq<TodoRow>,
    edges: Seq<TodoRelationRow>,
    cutoff: i64,
)
    ensures
        forall|i: int|
            0 <= i < induced_edges(rem, todos, edges, cutoff).len() ==> rem.contains(
                #[trigger] induced_edges(rem, todos, edges, cutoff)[i],
            ) && in_closure(
                todos,
                edges,
                cutoff,
                induced_edges(rem, todos, edges, cutoff)[i].parent_id,
            ) && in_closure(
                todos,
                edges,
                cutoff,
                induced_edges(rem, todos, edges, cutoff)[i].child_id,
            ),
    decreases rem.len(),
{
    let r = induced_edges(rem, todos, edges, cutoff);
    if rem.len() > 0 {
        let pre = rem.subrange(0, rem.len() - 1);
        lemma_induced_edges_sub(pre, todos, edges, cutoff);
        let rp = induced_edges(pre, todos, edges, cutoff);
        assert forall|i: int| 0 <= i < r.len() implies rem.contains(#[trigger] r[i]) && in_closure(
            todos,
            edges,
            cutoff,
            r[i].parent_id,
        ) && in_closure(todos, edges, cutoff, r[i].child_id) by {
            if i < rp.len() {
                assert(r[i] == rp[i]);
                assert(pre.contains(rp[i]));
                let j = choose|j: int| 0 <= j < pre.len() && pre[j] == rp[i];
                assert(rem[j] == rp[i]);
            } else {
                assert(r[i] == rem[rem.len() - 1]);
            }
        }
    }
}

/// Closure completeness over the selector's output: for every edge of the
/// snapshot, the relevant rows hold the parent exactly when they hold the
/// child.
pub proof fn lemma_relevant_rows_closed(
    todos: Seq<TodoRow>,
    edges: Seq<TodoRelationRow>,
    cutoff: i64,
    k: int,
)
    requires
        edges_closed(todos, edges),
        0 <= k < edges.len(),
    ensures
        has_item(relevant_rows(todos, todos, edges, cutoff), edges[k].parent_id) <==> has_item(
            relevant_rows(todos, todos, edges, cutoff),
            edges[k].child_id,
        ),
{
    lemma_closure_edge(todos, edges, cutoff, k);
    lemma_relevant_rows_sub(todos, todos, edges, cutoff);
    let rr = relevant_rows(todos, todos, edges, cutoff);
    assert forall|x: i64| has_item(todos, x) && in_closure(todos, edges, cutoff, x) implies
    has_item(rr, x) by {
        let i = choose|i: int| 0 <= i < todos.len() && todos[i].id == x;
        assert(rr.contains(todos[i]));
        let j = choose|j: int| 0 <= j < rr.len() && rr[j] == todos[i];
    }
    assert forall|x: i64| has_item(rr, x) implies in_closure(todos, edges, cutoff, x) by {
        let j = choose|j: int| 0 <= j < rr.len() && rr[j].id == x;
    }
    assert(has_item(todos, edges[k].parent_id) && has_item(todos, edges[k].child_id));
}

/// Closure minimality over the selector's output: any identifier set that
/// holds every item satisfying the base predicate and is closed across every
/// edge holds the identifier of every relevant row. The selector never
/// includes an item unless the base predicate or a chain of relevant
/// neighbours forces it.
pub proof fn lemma_relevant_rows_minimal(
    todos: Seq<TodoRow>,
    edges: Seq<TodoRelationRow>,
    cutoff: i64,
    s: Set<i64>,
)
    requires
        forall|i: int|
            0 <= i < todos.len() && base_pred(#[trigger] todos[i], cutoff) ==> s.contains(
                todos[i].id,
            ),
        forall|k: int|
            0 <= k < edges.len() ==> (s.contains(#[trigger] edges[k].parent_id) <==> s.contains(
                edges[k].child_id,
            )),
    ensures
        forall|j: int|
            0 <= j < relevant_rows(todos, todos, edges, cutoff).len() ==> s.contains(
                (#[trigger] relevant_rows(todos, todos, edges, cutoff)[j]).id,
            ),
{
    lemma_closure_minimal(todos, edges, cutoff, s);
    lemma_relevant_rows_sub(todos, todos, edges, cutoff);
}

/// The induced edges keep the single-parent invariant of the snapshot.
pub proof fn lemma_induced_single_parent(
    rem: Seq<TodoRelationRow>,
    todos: Seq<TodoRow>,
    edges: Seq<TodoRelationRow>,
    cutoff: i64,
)
    requires
        single_parent(rem),
    ensures
        single_parent(induced_edges(rem, todos, edges, cutoff)),
    decreases rem.len(),
{
    let r = induced_edges(rem, todos, edges, cutoff);
    if rem.len() > 0 {
        let pre = rem.subrange(0, rem.len() - 1);
        assert(single_parent(pre)) by {
            assert forall|k1: int, k2: int| 0 <= k1 < k2 < pre.len() implies (
            #[trigger] pre[k1]).child_id != (#[trigger] pre[k2]).child_id by {
                assert(pre[k1] == rem[k1] && pre[k2] == rem[k2]);
            }
        }
        lemma_induced_single_parent(pre, todos, edges, cutoff);
        let rp = induced_edges(pre, todos, edges, cutoff);
        lemma_induced_edges_sub(pre, todos, edges, cutoff);
        assert forall|k1: int, k2: int| 0 <= k1 < k2 < r.len() implies (
        #[trigger] r[k1]).child_id != (#[trigger] r[k2]).child_id by {
            if k2 < rp.len() {
                assert(r[k1] == rp[k1] && r[k2] == rp[k2]);
            } else {
                assert(r[k2] == rem[rem.len() - 1]);
                assert(r[k1] == rp[k1]);
                assert(pre.contains(rp[k1]));
                let j = choose|j: int| 0 <= j < pre.len() && pre[j] == rp[k1];
                assert(rem[j] == rp[k1]);
                assert(rem[j].child_id != rem[rem.len() - 1].child_id);
            }
        }
    }
}

/// A directed chain over a sub-relation is a chain over the full relation.
pub proof fn lemma_dpath_mono(
    sub: Seq<TodoRelationRow>,
    full: Seq<TodoRelationRow>,
    a: i64,
    b: i64,
    n: nat,
)
    requires
        forall|p: i64, c: i64| has_edge(sub, p, c) ==> has_edge(full, p, c),
        dpath(sub, a, b, n),
    ensures
        dpath(full, a, b, n),
    decreases n,
{
    if n > 0 {
        let m = choose|m: i64| dpath(sub, a, m, (n - 1) as nat) && has_edge(sub, m, b);
        lemma_dpath_mono(sub, full, a, m, (n - 1) as nat);
        assert(has_edge(full, m, b));
    }
}

/// The relevant subset of a well-formed snapshot is itself well formed:
/// distinct identifiers, induced edges between relevant rows only, and no
/// directed cycle.
pub proof fn lemma_selection_wf(todos: Seq<TodoRow>, edges: Seq<TodoRelationRow>, cutoff: i64)
    requires
        unique_ids(todos),
        edges_closed(todos, edges),
        acyclic(edges),
    ensures
        unique_ids(relevant_rows(todos, todos, edges, cutoff)),
        edges_closed(
            relevant_rows(todos, todos, edges, cutoff),
            induced_edges(edges, todos, edges, cutoff),
        ),
        acyclic(induced_edges(edges, todos, edges, cutoff)),
{
    let t = todos;
    let e = edges;
    lemma_relevant_rows_sub(t, t, e, cutoff);
    lemma_induced_edges_sub(e, t, e, cutoff);
    let rr = relevant_rows(t, t, e, cutoff);
    let re = induced_edges(e, t, e, cutoff);
    assert forall|p: i64, c: i64| has_edge(re, p, c) implies has_edge(e, p, c) by {
        let k = choose|k: int| 0 <= k < re.len() && re[k].parent_id == p && re[k].child_id == c;
        assert(e.contains(re[k]));
        let k2 = choose|k2: int| 0 <= k2 < e.len() && e[k2] == re[k];
    }
    assert(acyclic(re)) by {
        assert forall|x: i64, n: nat| 1 <= n implies !dpath(re, x, x, n) by {
            if dpath(re, x, x, n) {
                lemma_dpath_mono(re, e, x, x, n);
            }
        }
    }
    assert(edges_closed(rr, re)) by {
        assert forall|k: int| 0 <= k < re.len() implies has_item(
            rr,
            #[trigger] re[k].parent_id,
        ) && has_item(rr, re[k].child_id) by {
            assert(e.contains(re[k]));
            let k2 = choose|k2: int| 0 <= k2 < e.len() && e[k2] == re[k];
            assert(has_item(t, e[k2].parent_id) && has_item(t, e[k2].child_id));
            let ip = choose|ip: int| 0 <= ip < t.len() && t[ip].id == re[k].parent_id;
            assert(in_closure(t, e, cutoff, t[ip].id));
            assert(rr.contains(t[ip]));
            let jp = choose|jp: int| 0 <= jp < rr.len() && rr[jp] == t[ip];
            assert(has_item(rr, re[k].parent_id));
            let ic = choose|ic: int| 0 <= ic < t.len() && t[ic].id == re[k].child_id;
            assert(in_closure(t, e, cutoff, t[ic].id));
            assert(rr.contains(t[ic]));
            let jc = choose|jc: int| 0 <= jc < rr.len() && rr[jc] == t[ic];
            assert(has_item(rr, re[k].child_id));
        }
    }
}

/// Root exclusivity over one whole read request: on a well-formed
/// single-parent snapshot, the forest built from the relevant subset lists
/// every relevant item exactly once.
pub proof fn lemma_display_relevant_exclusive(
    todos: Seq<TodoRow>,
    edges: Seq<TodoRelationRow>,
    cutoff: i64,
)
    requires
        unique_ids(todos),
        edges_closed(todos, edges),
        acyclic(edges),
        single_parent(edges),
    ensures
        forest_ids(
            spec_display(
                relevant_rows(todos, todos, edges, cutoff),
                induced_edges(edges, todos, edges, cutoff),
            ),
        ).no_duplicates(),
        forall|x: i64|
            forest_ids(
                spec_display(
                    relevant_rows(todos, todos, edges, cutoff),
                    induced_edges(edges, todos, edges, cutoff),
                ),
            ).contains(x) <==> has_item(relevant_rows(todos, todos, edges, cutoff), x),
{
    lemma_selection_wf(todos, edges, cutoff);
    lemma_induced_single_parent(edges, todos, edges, cutoff);
    lemma_root_exclusivity(
        relevant_rows(todos, todos, edges, cutoff),
        induced_edges(edges, todos, edges, cutoff),
    );
}

/// One read request, end to end: selects the relevant subset of a snapshot
/// and materializes it as the display forest. On a well-formed snapshot
/// (distinct identifiers, edges between known items, no directed cycle) it
/// always succeeds.
pub fn display_relevant(todos: Vec<TodoRow>, edges: Vec<TodoRelationRow>, cutoff: i64) -> (r:
    Result<Vec<TodoForDisplay>, TodoofusError>)
    requires
        unique_ids(todos@),
        edges_closed(todos@, edges@),
        acyclic(edges@),
    ensures
        r is Ok,
        r is Ok ==> nodes_view(r->Ok_0@) == spec_display(
            relevant_rows(todos@, todos@, edges@, cutoff),
            induced_edges(edges@, todos@, edges@, cutoff),
        ),
        r is Ok ==> sorted_desc(nodes_view(r->Ok_0@)) && trees_ordered(nodes_view(r->Ok_0@)),
{
    let ghost t = todos@;
    let ghost e = edges@;
    let (rows, redges) = select_relevant(todos, edges, cutoff);
    proof {
        lemma_selection_wf(t, e, cutoff);
    }
    let info = TodoInfo::new(rows, redges);
    info.into_display()
}

} // verus!
