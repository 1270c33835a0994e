//! Paths, reachability and cycles in a dependency graph given by an edge
//! relation between module names.

use vstd::prelude::*;

verus! {

/// An edge relation between module names.
pub type Edges = spec_fn(Seq<char>, Seq<char>) -> bool;

/// `p` is a non-empty path: each name has an edge to the next.
pub open spec fn is_path(edge: Edges, p: Seq<Seq<char>>) -> bool {
    &&& p.len() >= 1
    &&& forall|i: int, j: int| 0 <= i && j == i + 1 && j < p.len() ==> #[trigger] edge(p[i], p[j])
}

/// There is a path from `a` to `b` (every name reaches itself).
pub open spec fn reaches(edge: Edges, a: Seq<char>, b: Seq<char>) -> bool {
    exists|p: Seq<Seq<char>>| #[trigger] is_path(edge, p) && p[0] == a && p.last() == b
}

/// There is a path of at least one edge from `a` back to `a`.
pub open spec fn on_cycle(edge: Edges, a: Seq<char>) -> bool {
    exists|p: Seq<Seq<char>>| #[trigger] is_path(edge, p) && p.len() >= 2 && p[0] == a && p.last() == a
}

/// Some name on a cycle is reachable from `a`.
pub open spec fn reaches_cycle(edge: Edges, a: Seq<char>) -> bool {
    exists|y: Seq<char>| #[trigger] reaches(edge, a, y) && on_cycle(edge, y)
}

/// A single name is a path, so every name reaches itself.
pub proof fn lemma_path_single(edge: Edges, a: Seq<char>)
    ensures
        is_path(edge, seq![a]),
        reaches(edge, a, a),
{
    let p = seq![a];
    assert(is_path(edge, p));
}

/// A path extended by an edge from its last name is a path.
pub proof fn lemma_path_push(edge: Edges, p: Seq<Seq<char>>, x: Seq<char>)
    requires
        is_path(edge, p),
        edge(p.last(), x),
    ensures
        is_path(edge, p.push(x)),
{
    let q = p.push(x);
    assert forall|i: int, j: int| 0 <= i && j == i + 1 && j < q.len() implies #[trigger] edge(q[i], q[j]) by {
        if j < p.len() {
            assert(q[i] == p[i] && q[j] == p[j]);
            assert(edge(p[i], p[j]));
        }
    }
}

/// A non-empty prefix of a path is a path.
pub proof fn lemma_path_take(edge: Edges, p: Seq<Seq<char>>, k: int)
    requires
        is_path(edge, p),
        1 <= k <= p.len(),
    ensures
        is_path(edge, p.take(k)),
{
    let q = p.take(k);
    assert forall|i: int, j: int| 0 <= i && j == i + 1 && j < q.len() implies #[trigger] edge(q[i], q[j]) by {
        assert(q[i] == p[i] && q[j] == p[j]);
        assert(edge(p[i], p[j]));
    }
}

/// A non-empty suffix of a path is a path.
pub proof fn lemma_path_skip(edge: Edges, p: Seq<Seq<char>>, k: int)
    requires
        is_path(edge, p),
        0 <= k < p.len(),
    ensures
        is_path(edge, p.skip(k)),
{
    let q = p.skip(k);
    assert forall|i: int, j: int| 0 <= i && j == i + 1 && j < q.len() implies #[trigger] edge(q[i], q[j]) by {
        assert(q[i] == p[i + k] && q[j] == p[j + k]);
        assert(edge(p[i + k], p[j + k]));
    }
}

/// A reachable name followed by an edge is reachable.
pub proof fn lemma_reaches_step(edge: Edges, a: Seq<char>, b: Seq<char>, c: Seq<char>)
    requires
        reaches(edge, a, b),
        edge(b, c),
    ensures
        reaches(edge, a, c),
{
    let p = choose|p: Seq<Seq<char>>| #[trigger] is_path(edge, p) && p[0] == a && p.last() == b;
    lemma_path_push(edge, p, c);
    let q = p.push(c);
    assert(q[0] == a && q.last() == c);
}

/// The last name of a path is reachable from its first.
pub proof fn lemma_path_reaches(edge: Edges, p: Seq<Seq<char>>)
    requires
        is_path(edge, p),
    ensures
        reaches(edge, p[0], p.last()),
{
}

/// A set of names (the elements of `s`) that holds `root` and every successor
/// of its members holds every name reachable from `root`.
pub proof fn lemma_closed_holds_reachable(edge: Edges, s: Seq<Seq<char>>, root: Seq<char>, b: Seq<char>)
    requires
        s.contains(root),
        forall|x: Seq<char>, y: Seq<char>| s.contains(x) && #[trigger] edge(x, y) ==> s.contains(y),
        reaches(edge, root, b),
    ensures
        s.contains(b),
{
    let p = choose|p: Seq<Seq<char>>| #[trigger] is_path(edge, p) && p[0] == root && p.last() == b;
    lemma_closed_prefix(edge, s, p, p.len() as int);
}

/// Every name of a path whose first name is in the closed list `s` is in `s`.
proof fn lemma_closed_prefix(edge: Edges, s: Seq<Seq<char>>, p: Seq<Seq<char>>, k: int)
    requires
        is_path(edge, p),
        s.contains(p[0]),
        forall|x: Seq<char>, y: Seq<char>| s.contains(x) && #[trigger] edge(x, y) ==> s.contains(y),
        1 <= k <= p.len(),
    ensures
        s.contains(p[k - 1]),
    decreases k,
{
    if k > 1 {
        lemma_closed_prefix(edge, s, p, k - 1);
        assert(edge(p[k - 2], p[k - 1]));
    }
}

/// A name whose successors reach no cycle reaches no cycle.
pub proof fn lemma_safe_from_successors(edge: Edges, x: Seq<char>)
    requires
        forall|d: Seq<char>| #[trigger] edge(x, d) ==> !reaches_cycle(edge, d),
    ensures
        !reaches_cycle(edge, x),
{
    if reaches_cycle(edge, x) {
        let y = choose|y: Seq<char>| #[trigger] reaches(edge, x, y) && on_cycle(edge, y);
        let p = choose|p: Seq<Seq<char>>| #[trigger] is_path(edge, p) && p[0] == x && p.last() == y;
        let c = choose|c: Seq<Seq<char>>| #[trigger] is_path(edge, c) && c.len() >= 2 && c[0] == y && c.last() == y;
        if p.len() == 1 {
            assert(edge(c[0], c[1]));
            lemma_path_skip(edge, c, 1);
            let q = c.skip(1);
            assert(q[0] == c[1] && q.last() == y);
            assert(reaches(edge, c[1], y));
            assert(reaches_cycle(edge, c[1]));
        } else {
            assert(edge(p[0], p[1]));
            lemma_path_skip(edge, p, 1);
            let q = p.skip(1);
            assert(q[0] == p[1] && q.last() == y);
            assert(reaches(edge, p[1], y));
            assert(reaches_cycle(edge, p[1]));
        }
    }
}

/// A path that ends with an edge back to one of its own names shows a cycle
/// reachable from its first name.
pub proof fn lemma_cycle_on_path(edge: Edges, s: Seq<Seq<char>>, i: int, x: Seq<char>)
    requires
        is_path(edge, s),
        0 <= i < s.len(),
        s[i] == x,
        edge(s.last(), x),
    ensures
        reaches_cycle(edge, s[0]),
{
    lemma_path_take(edge, s, i + 1);
    let front = s.take(i + 1);
    assert(front[0] == s[0] && front.last() == x);
    assert(reaches(edge, s[0], x));
    lemma_path_skip(edge, s, i);
    let back = s.skip(i);
    assert(back.last() == s.last());
    lemma_path_push(edge, back, x);
    let cyc = back.push(x);
    assert(cyc[0] == x && cyc.last() == x && cyc.len() >= 2);
    assert(on_cycle(edge, x));
}

} // verus!
