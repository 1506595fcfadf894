//! Walks on the board, and which cells they link.

use vstd::prelude::*;
use crate::topology::adjacent;
use crate::topology::on_board;

verus! {

/// `p` is a walk from `from` to `to`: it steps from cell to adjacent cell,
/// and every cell after the first lies in `through`.
pub open spec fn is_walk(
    width: int,
    height: int,
    p: Seq<int>,
    from: int,
    to: int,
    through: Set<int>,
) -> bool {
    &&& p.len() >= 1
    &&& p[0] == from
    &&& p[p.len() - 1] == to
    &&& forall|i: int| 0 <= i < p.len() - 1 ==> adjacent(width, height, #[trigger] p[i], p[i + 1])
    &&& forall|i: int| 1 <= i < p.len() ==> through.contains(#[trigger] p[i])
}

/// Some walk leads from `from` to `to` through cells of `through`. Every
/// cell is linked to itself.
pub open spec fn linked(width: int, height: int, from: int, to: int, through: Set<int>) -> bool {
    exists|p: Seq<int>| is_walk(width, height, p, from, to, through)
}

/// `to` is linked to one of the cells in `sources`.
pub open spec fn reachable(
    width: int,
    height: int,
    sources: Set<int>,
    to: int,
    through: Set<int>,
) -> bool {
    exists|from: int| sources.contains(from) && linked(width, height, from, to, through)
}

/// Every cell is linked to itself.
pub proof fn lemma_linked_self(width: int, height: int, from: int, through: Set<int>)
    ensures
        linked(width, height, from, from, through),
{
    assert(is_walk(width, height, seq![from], from, from, through));
}

/// A walk can be extended by one step into `through`.
pub proof fn lemma_linked_step(
    width: int,
    height: int,
    from: int,
    a: int,
    b: int,
    through: Set<int>,
)
    requires
        linked(width, height, from, a, through),
        adjacent(width, height, a, b),
        through.contains(b),
    ensures
        linked(width, height, from, b, through),
{
    let p = choose|p: Seq<int>| is_walk(width, height, p, from, a, through);
    let q = p.push(b);
    assert forall|i: int| 0 <= i < q.len() - 1 implies adjacent(
        width,
        height,
        #[trigger] q[i],
        q[i + 1],
    ) by {
        if i < p.len() - 1 {
            assert(q[i] == p[i] && q[i + 1] == p[i + 1]);
        }
    }
    assert(is_walk(width, height, q, from, b, through));
}

/// A cell adjacent to a reachable cell, and in `through`, is reachable.
pub proof fn lemma_reachable_step(
    width: int,
    height: int,
    sources: Set<int>,
    a: int,
    b: int,
    through: Set<int>,
)
    requires
        reachable(width, height, sources, a, through),
        adjacent(width, height, a, b),
        through.contains(b),
    ensures
        reachable(width, height, sources, b, through),
{
    let from = choose|from: int| sources.contains(from) && linked(width, height, from, a, through);
    lemma_linked_step(width, height, from, a, b, through);
}

/// Each source is reachable.
pub proof fn lemma_reachable_source(
    width: int,
    height: int,
    sources: Set<int>,
    from: int,
    through: Set<int>,
)
    requires
        sources.contains(from),
    ensures
        reachable(width, height, sources, from, through),
{
    lemma_linked_self(width, height, from, through);
}

/// A set that holds the start of a walk, and with each of its cells the
/// adjacent cells of `through`, holds the walk's end.
pub proof fn lemma_walk_stays_in_closed(
    width: int,
    height: int,
    p: Seq<int>,
    from: int,
    to: int,
    through: Set<int>,
    closed: Set<int>,
)
    requires
        is_walk(width, height, p, from, to, through),
        closed.contains(from),
        forall|a: int, b: int|
            closed.contains(a) && #[trigger] adjacent(width, height, a, b) && through.contains(b)
                ==> closed.contains(b),
    ensures
        closed.contains(to),
    decreases p.len(),
{
    if p.len() > 1 {
        let q = p.drop_last();
        let mid = q[q.len() - 1];
        assert forall|i: int| 0 <= i < q.len() - 1 implies adjacent(
            width,
            height,
            #[trigger] q[i],
            q[i + 1],
        ) by {
            assert(q[i] == p[i] && q[i + 1] == p[i + 1]);
        }
        assert forall|i: int| 1 <= i < q.len() implies through.contains(#[trigger] q[i]) by {
            assert(q[i] == p[i]);
        }
        assert(is_walk(width, height, q, from, mid, through));
        lemma_walk_stays_in_closed(width, height, q, from, mid, through, closed);
        assert(adjacent(width, height, p[p.len() - 2], p[p.len() - 2 + 1]));
        assert(through.contains(p[p.len() - 1]));
    }
}

/// A set that holds the sources, and with each of its cells the adjacent
/// cells of `through`, holds every reachable cell.
pub proof fn lemma_reachable_in_closed(
    width: int,
    height: int,
    sources: Set<int>,
    to: int,
    through: Set<int>,
    closed: Set<int>,
)
    requires
        reachable(width, height, sources, to, through),
        forall|f: int| sources.contains(f) ==> closed.contains(f),
        forall|a: int, b: int|
            closed.contains(a) && #[trigger] adjacent(width, height, a, b) && through.contains(b)
                ==> closed.contains(b),
    ensures
        closed.contains(to),
{
    let from = choose|from: int| sources.contains(from) && linked(width, height, from, to, through);
    let p = choose|p: Seq<int>| is_walk(width, height, p, from, to, through);
    lemma_walk_stays_in_closed(width, height, p, from, to, through, closed);
}

/// A cell linked to another one than itself lies on the board, in `through`.
pub proof fn lemma_linked_end(width: int, height: int, from: int, to: int, through: Set<int>)
    requires
        linked(width, height, from, to, through),
        from != to,
    ensures
        on_board(width, height, to),
        through.contains(to),
{
    let p = choose|p: Seq<int>| is_walk(width, height, p, from, to, through);
    assert(p.len() >= 2);
    assert(adjacent(width, height, p[p.len() - 2], p[p.len() - 2 + 1]));
    assert(through.contains(p[p.len() - 1]));
}

/// A walk through `through` is a walk through any larger set.
pub proof fn lemma_linked_mono(
    width: int,
    height: int,
    from: int,
    to: int,
    through: Set<int>,
    larger: Set<int>,
)
    requires
        linked(width, height, from, to, through),
        forall|c: int| through.contains(c) ==> larger.contains(c),
    ensures
        linked(width, height, from, to, larger),
{
    let p = choose|p: Seq<int>| is_walk(width, height, p, from, to, through);
    assert(is_walk(width, height, p, from, to, larger));
}

/// Two walks, one after the other, make one walk.
pub proof fn lemma_linked_trans(
    width: int,
    height: int,
    a: int,
    b: int,
    c: int,
    through: Set<int>,
)
    requires
        linked(width, height, a, b, through),
        linked(width, height, b, c, through),
    ensures
        linked(width, height, a, c, through),
{
    let p = choose|p: Seq<int>| is_walk(width, height, p, a, b, through);
    let q = choose|q: Seq<int>| is_walk(width, height, q, b, c, through);
    let r = p + q.subrange(1, q.len() as int);
    assert forall|i: int| 0 <= i < r.len() - 1 implies adjacent(
        width,
        height,
        #[trigger] r[i],
        r[i + 1],
    ) by {
        if i < p.len() - 1 {
            assert(r[i] == p[i] && r[i + 1] == p[i + 1]);
        } else {
            let k = i - (p.len() - 1);
            assert(r[i] == q[k]);
            assert(r[i + 1] == q[k + 1]);
        }
    }
    assert forall|i: int| 1 <= i < r.len() implies through.contains(#[trigger] r[i]) by {
        if i < p.len() {
            assert(r[i] == p[i]);
        } else {
            assert(r[i] == q[i - p.len() + 1]);
        }
    }
    if q.len() == 1 {
        assert(r[r.len() - 1] == p[p.len() - 1]);
    } else {
        assert(r[r.len() - 1] == q[q.len() - 1]);
    }
    assert(is_walk(width, height, r, a, c, through));
}

/// A walk that starts in `through` can be walked backwards.
pub proof fn lemma_linked_sym(width: int, height: int, a: int, b: int, through: Set<int>)
    requires
        linked(width, height, a, b, through),
        through.contains(a),
    ensures
        linked(width, height, b, a, through),
{
    let p = choose|p: Seq<int>| is_walk(width, height, p, a, b, through);
    let r = p.reverse();
    assert forall|i: int| 0 <= i < r.len() - 1 implies adjacent(
        width,
        height,
        #[trigger] r[i],
        r[i + 1],
    ) by {
        let k = p.len() - 2 - i;
        assert(r[i] == p[k + 1]);
        assert(r[i + 1] == p[k]);
        assert(adjacent(width, height, p[k], p[k + 1]));
    }
    assert forall|i: int| 1 <= i < r.len() implies through.contains(#[trigger] r[i]) by {
        let k = p.len() - 1 - i;
        assert(r[i] == p[k]);
        if k > 0 {
            assert(through.contains(p[k]));
        }
    }
    assert(is_walk(width, height, r, b, a, through));
}

/// The part of a walk up to its cell `i` is a walk to that cell.
pub proof fn lemma_walk_prefix(
    width: int,
    height: int,
    p: Seq<int>,
    from: int,
    to: int,
    through: Set<int>,
    i: int,
)
    requires
        is_walk(width, height, p, from, to, through),
        0 <= i < p.len(),
    ensures
        is_walk(width, height, p.take(i + 1), from, p[i], through),
        linked(width, height, from, p[i], through),
{
    let q = p.take(i + 1);
    assert forall|k: int| 0 <= k < q.len() - 1 implies adjacent(
        width,
        height,
        #[trigger] q[k],
        q[k + 1],
    ) by {
        assert(q[k] == p[k] && q[k + 1] == p[k + 1]);
    }
    assert forall|k: int| 1 <= k < q.len() implies through.contains(#[trigger] q[k]) by {
        assert(q[k] == p[k]);
    }
}

/// The part of a walk from its cell `i` on is a walk from that cell.
pub proof fn lemma_walk_suffix(
    width: int,
    height: int,
    p: Seq<int>,
    from: int,
    to: int,
    through: Set<int>,
    i: int,
)
    requires
        is_walk(width, height, p, from, to, through),
        0 <= i < p.len(),
    ensures
        is_walk(width, height, p.skip(i), p[i], to, through),
{
    let q = p.skip(i);
    assert forall|k: int| 0 <= k < q.len() - 1 implies adjacent(
        width,
        height,
        #[trigger] q[k],
        q[k + 1],
    ) by {
        assert(q[k] == p[k + i] && q[k + 1] == p[k + i + 1]);
        assert(adjacent(width, height, p[k + i], p[k + i + 1]));
    }
    assert forall|k: int| 1 <= k < q.len() implies through.contains(#[trigger] q[k]) by {
        assert(q[k] == p[k + i]);
    }
}

/// A walk that leaves `x` for another cell leads on from a neighbour of
/// `x`, without coming back to `x`.
pub proof fn lemma_walk_leaves(
    width: int,
    height: int,
    p: Seq<int>,
    x: int,
    to: int,
    through: Set<int>,
) -> (n: int)
    requires
        is_walk(width, height, p, x, to, through),
        to != x,
    ensures
        adjacent(width, height, x, n),
        through.contains(n),
        n != x,
        linked(width, height, n, to, through.remove(x)),
    decreases p.len(),
{
    if exists|i: int| 1 <= i < p.len() && p[i] == x {
        let i = choose|i: int| 1 <= i < p.len() && p[i] == x;
        lemma_walk_suffix(width, height, p, x, to, through, i);
        lemma_walk_leaves(width, height, p.skip(i), x, to, through)
    } else {
        assert(p.len() >= 2);
        lemma_walk_suffix(width, height, p, x, to, through, 1);
        let q = p.skip(1);
        assert forall|k: int| 1 <= k < q.len() implies through.remove(x).contains(
            #[trigger] q[k],
        ) by {
            assert(q[k] == p[k + 1]);
        }
        assert(is_walk(width, height, q, p[1], to, through.remove(x)));
        assert(adjacent(width, height, p[0], p[0int + 1]));
        p[1]
    }
}

/// A cell linked to another one than `x` is linked to it from a neighbour
/// of `x`, by a walk that does not pass `x`.
pub proof fn lemma_linked_leaves(width: int, height: int, x: int, to: int, through: Set<int>) -> (n:
    int)
    requires
        linked(width, height, x, to, through),
        to != x,
    ensures
        adjacent(width, height, x, n),
        through.contains(n),
        n != x,
        linked(width, height, n, to, through.remove(x)),
{
    let p = choose|p: Seq<int>| is_walk(width, height, p, x, to, through);
    lemma_walk_leaves(width, height, p, x, to, through)
}

/// A walk from a cell that is not linked to `x` does not pass `x`.
pub proof fn lemma_linked_without(
    width: int,
    height: int,
    from: int,
    to: int,
    through: Set<int>,
    x: int,
)
    requires
        linked(width, height, from, to, through),
        !linked(width, height, from, x, through),
    ensures
        linked(width, height, from, to, through.remove(x)),
{
    let p = choose|p: Seq<int>| is_walk(width, height, p, from, to, through);
    assert forall|i: int| 1 <= i < p.len() implies through.remove(x).contains(#[trigger] p[i]) by {
        if p[i] == x {
            lemma_walk_prefix(width, height, p, from, to, through, i);
        }
    }
    assert(is_walk(width, height, p, from, to, through.remove(x)));
}

} // verus!
