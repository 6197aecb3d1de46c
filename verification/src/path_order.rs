//! Which shortest path the search returns: among all shortest walks, the one
//! whose moves (up before down before left before right) come first in
//! dictionary order. The search state keeps enough order for the proof.
use vstd::prelude::*;
use crate::grid::{
    adjacent, bfs_closed, bfs_shape, cell_id, in_bounds, is_path, is_shortest_path, is_walk,
    reachable,
    lemma_parent, lemma_walk_bound, neighbour_of, passable, step_before, walk_end, Pos, Tiles,
};

verus! {

/// The move from `a` to the tile `b` beside it: 0 up, 1 down, 2 left, 3 right.
pub open spec fn step_dir(a: Pos, b: Pos) -> int {
    if b.y + 1 == a.y {
        0
    } else if a.y + 1 == b.y {
        1
    } else if b.x + 1 == a.x {
        2
    } else {
        3
    }
}

/// The moves of a walk that starts at `from`.
pub open spec fn moves(from: Pos, path: Seq<Pos>) -> Seq<int> {
    Seq::new(path.len(), |i: int| step_dir(step_before(from, path, i), path[i]))
}

/// `s` comes strictly before `t` in dictionary order (for sequences of one length).
pub open spec fn lex_lt(s: Seq<int>, t: Seq<int>) -> bool
    decreases s.len(),
{
    if s.len() == 0 || t.len() == 0 {
        false
    } else {
        lex_lt(s.drop_last(), t.drop_last()) || (s.drop_last() == t.drop_last() && s.last()
            < t.last())
    }
}

/// `s` equals `t` or comes before it in dictionary order.
pub open spec fn lex_le(s: Seq<int>, t: Seq<int>) -> bool {
    s == t || lex_lt(s, t)
}

proof fn lemma_lex_push(s: Seq<int>, t: Seq<int>, x: int, y: int)
    ensures
        lex_lt(s, t) ==> lex_lt(s.push(x), t.push(y)),
        s == t && x < y ==> lex_lt(s.push(x), t.push(y)),
        lex_le(s, t) && x == y ==> lex_le(s.push(x), t.push(y)),
{
    assert(s.push(x).drop_last() =~= s);
    assert(t.push(y).drop_last() =~= t);
}

proof fn lemma_lex_lt_trans(a: Seq<int>, b: Seq<int>, c: Seq<int>)
    requires
        a.len() == b.len(),
        b.len() == c.len(),
        lex_lt(a, b),
        lex_le(b, c),
    ensures
        lex_lt(a, c),
    decreases a.len(),
{
    if b != c {
        let a1 = a.drop_last();
        let b1 = b.drop_last();
        let c1 = c.drop_last();
        if lex_lt(a1, b1) {
            lemma_lex_lt_trans(a1, b1, c1);
        }
    }
}

/// The move toward the `d`-th neighbour is `d`.
pub proof fn lemma_step_dir_neighbour(p: Pos, d: int, q: Pos)
    requires
        0 <= d < 4,
        neighbour_of(p, d) == Some(q),
    ensures
        step_dir(p, q) == d,
        adjacent(p, q),
{
}

proof fn lemma_moves_push(from: Pos, path: Seq<Pos>, p: Pos)
    ensures
        moves(from, path.push(p)) == moves(from, path).push(step_dir(walk_end(from, path), p)),
{
    let l = path.push(p);
    assert forall|i: int| 0 <= i < path.len() implies step_before(from, l, i) == step_before(
        from,
        path,
        i,
    ) && l[i] == path[i] by {}
    assert(step_before(from, l, path.len() as int) == walk_end(from, path));
    assert(moves(from, l) =~= moves(from, path).push(step_dir(walk_end(from, path), p)));
}

// ---------------------------------------------------------------------------
// The search tree
// ---------------------------------------------------------------------------

/// The tile from which `p` was reached.
pub open spec fn parent(came: Seq<Option<Pos>>, p: Pos) -> Pos {
    came[cell_id(p)]->0
}

/// The walk of `n` steps along recorded predecessors that ends at `p`.
pub open spec fn tree_path(came: Seq<Option<Pos>>, p: Pos, n: nat) -> Seq<Pos>
    decreases n,
{
    if n == 0 {
        seq![]
    } else {
        tree_path(came, parent(came, p), (n - 1) as nat).push(p)
    }
}

/// `a` was queued before `b` for a reason that the search keeps: its parent
/// was queued earlier, or they share a parent and `a` lies in an earlier direction.
pub open spec fn queued_in_order(
    came: Seq<Option<Pos>>,
    index: Map<Pos, int>,
    a: Pos,
    b: Pos,
) -> bool {
    let pa = parent(came, a);
    let pb = parent(came, b);
    index[pa] < index[pb] || (pa == pb && step_dir(pa, a) < step_dir(pb, b))
}

/// The order kept by the search while the tile at `head` has had its first
/// `d` directions tried: tiles after the start are queued in order of their
/// parents and directions; no tile queued before a tile's parent is beside it;
/// every parent is done or is the head tile, and the head tile's children lie
/// in the directions already tried.
#[verifier::opaque]
pub closed spec fn bfs_order(
    came: Seq<Option<Pos>>,
    queue: Seq<Pos>,
    index: Map<Pos, int>,
    head: int,
    d: int,
) -> bool {
    &&& forall|i: int, j: int|
        1 <= i < j < queue.len() ==> queued_in_order(
            came,
            index,
            #[trigger] queue[i],
            #[trigger] queue[j],
        )
    &&& forall|i: int, u: Pos|
        1 <= i < queue.len() && #[trigger] index.dom().contains(u) && index[u] < index[parent(
            came,
            #[trigger] queue[i],
        )] ==> !adjacent(u, queue[i])
    &&& forall|i: int|
        1 <= i < queue.len() ==> index[parent(came, #[trigger] queue[i])] < head || (index[parent(
            came,
            queue[i],
        )] == head && step_dir(parent(came, queue[i]), queue[i]) < d)
}

/// Two tiles past the start are queued in the order of their parents and directions.
pub proof fn lemma_order_pair(
    came: Seq<Option<Pos>>,
    queue: Seq<Pos>,
    index: Map<Pos, int>,
    head: int,
    d: int,
    i: int,
    j: int,
)
    requires
        bfs_order(came, queue, index, head, d),
        1 <= i < j < queue.len(),
    ensures
        queued_in_order(came, index, queue[i], queue[j]),
{
    reveal(bfs_order);
}

/// No tile queued before a tile's parent is beside that tile.
pub proof fn lemma_order_no_earlier_neighbour(
    came: Seq<Option<Pos>>,
    queue: Seq<Pos>,
    index: Map<Pos, int>,
    head: int,
    d: int,
    i: int,
    u: Pos,
)
    requires
        bfs_order(came, queue, index, head, d),
        1 <= i < queue.len(),
        index.dom().contains(u),
        index[u] < index[parent(came, queue[i])],
    ensures
        !adjacent(u, queue[i]),
{
    reveal(bfs_order);
}

/// The order holds of the search's first state, the start alone.
pub proof fn lemma_order_init(came: Seq<Option<Pos>>, from: Pos, index: Map<Pos, int>)
    ensures
        bfs_order(came, seq![from], index, 0, 0),
{
    reveal(bfs_order);
}

/// Trying one more direction without queueing a tile keeps the order.
pub proof fn lemma_order_next_dir(
    came: Seq<Option<Pos>>,
    queue: Seq<Pos>,
    index: Map<Pos, int>,
    head: int,
    d: int,
)
    requires
        bfs_order(came, queue, index, head, d),
    ensures
        bfs_order(came, queue, index, head, d + 1),
{
    reveal(bfs_order);
}

/// Once all four directions are tried, the head tile is done.
pub proof fn lemma_order_next_head(
    came: Seq<Option<Pos>>,
    queue: Seq<Pos>,
    index: Map<Pos, int>,
    head: int,
)
    requires
        bfs_order(came, queue, index, head, 4),
    ensures
        bfs_order(came, queue, index, head + 1, 0),
{
    reveal(bfs_order);
}

/// Queueing the `d`-th neighbour of the head tile, when it is new and
/// passable, keeps the order.
#[verifier::rlimit(40)]
pub proof fn lemma_visit_keeps_order(
    tiles: Tiles,
    from: Pos,
    visited: Seq<bool>,
    came: Seq<Option<Pos>>,
    queue: Seq<Pos>,
    index: Map<Pos, int>,
    dist: Map<Pos, int>,
    head: int,
    current: Pos,
    next: Pos,
    d: int,
)
    requires
        bfs_shape(tiles, from, visited, came, queue, index, dist),
        0 <= head < queue.len(),
        current == queue[head],
        bfs_closed(tiles, queue, head, index, dist),
        0 <= d < 4,
        neighbour_of(current, d) == Some(next),
        passable(tiles, next),
        !index.dom().contains(next),
        bfs_order(came, queue, index, head, d),
    ensures
        bfs_order(
            came.update(cell_id(next), Some(current)),
            queue.push(next),
            index.insert(next, queue.len() as int),
            head,
            d + 1,
        ),
{
    reveal(bfs_order);
    let n = queue.len() as int;
    let came2 = came.update(cell_id(next), Some(current));
    let queue2 = queue.push(next);
    let index2 = index.insert(next, n);
    assert(index.dom().contains(queue[head]));
    assert(index[current] == head);
    assert(parent(came2, next) == current);
    assert forall|i: int| 1 <= i < n implies #[trigger] queue2[i] == queue[i] && parent(
        came2,
        queue[i],
    ) == parent(came, queue[i]) && index.dom().contains(parent(came, queue[i])) && index2[parent(
        came2,
        queue[i],
    )] == index[parent(came, queue[i])] && in_bounds(queue[i]) by {
        assert(index.dom().contains(queue[i]));
        assert(queue[i] != next);
        assert(cell_id(queue[i]) != cell_id(next));
    }
    assert forall|i: int, j: int|
        1 <= i < j < queue2.len() implies queued_in_order(
        came2,
        index2,
        #[trigger] queue2[i],
        #[trigger] queue2[j],
    ) by {
        assert(queue2[i] == queue[i]);
        if j < n {
            assert(queue2[j] == queue[j]);
            assert(queued_in_order(came, index, queue[i], queue[j]));
        } else {
            let pa = parent(came, queue[i]);
            assert(index[pa] < head || (index[pa] == head && step_dir(pa, queue[i]) < d));
            if index[pa] == head {
                assert(queue[index[pa]] == pa);
            }
            lemma_step_dir_neighbour(current, d, next);
        }
    }
    assert forall|i: int, u: Pos|
        1 <= i < queue2.len() && #[trigger] index2.dom().contains(u) && index2[u] < index2[parent(
            came2,
            #[trigger] queue2[i],
        )] implies !adjacent(u, queue2[i]) by {
        if i < n {
            assert(queue2[i] == queue[i]);
            if u != next {
                assert(index.dom().contains(u));
            } else {
                assert(index[parent(came, queue[i])] < n);
            }
        } else {
            assert(u != next);
            assert(index.dom().contains(u));
            assert(queue[index[u]] == u);
            if adjacent(u, next) {
                assert(adjacent(queue[index[u]], next));
                assert(index.dom().contains(next));
            }
        }
    }
    assert forall|i: int|
        1 <= i < queue2.len() implies index2[parent(came2, #[trigger] queue2[i])] < head || (
    index2[parent(came2, queue2[i])] == head && step_dir(parent(came2, queue2[i]), queue2[i]) < d
        + 1) by {
        if i < n {
            assert(queue2[i] == queue[i]);
        } else {
            lemma_step_dir_neighbour(current, d, next);
        }
    }
}

/// The tree walk to a reached tile: it has as many steps as the tile's
/// distance and ends there; past the start it is the walk to the parent and
/// one more step.
pub proof fn lemma_tree_path(
    tiles: Tiles,
    from: Pos,
    visited: Seq<bool>,
    came: Seq<Option<Pos>>,
    queue: Seq<Pos>,
    index: Map<Pos, int>,
    dist: Map<Pos, int>,
    p: Pos,
)
    requires
        bfs_shape(tiles, from, visited, came, queue, index, dist),
        index.dom().contains(p),
    ensures
        dist[p] >= 0,
        tree_path(came, p, dist[p] as nat).len() == dist[p],
        walk_end(from, tree_path(came, p, dist[p] as nat)) == p,
        p != from ==> dist[p] >= 1 && tree_path(came, p, dist[p] as nat) == tree_path(
            came,
            parent(came, p),
            dist[parent(came, p)] as nat,
        ).push(p),
    decreases dist[p],
{
    assert(queue[index[p]] == p);
    if p == from {
        assert(dist[p] == 0);
    } else {
        lemma_parent(tiles, from, visited, came, queue, index, dist, p);
        let c = parent(came, p);
        lemma_tree_path(tiles, from, visited, came, queue, index, dist, c);
    }
}

/// Walking back one more step: the walk to the parent, then `p` and the steps
/// already collected (in reverse).
pub proof fn lemma_walk_back(to_p: Seq<Pos>, to_parent: Seq<Pos>, p: Pos, rev: Seq<Pos>)
    requires
        to_p == to_parent.push(p),
    ensures
        to_p + rev.reverse() == to_parent + rev.push(p).reverse(),
{
    assert(to_p + rev.reverse() =~= to_parent + rev.push(p).reverse());
}

/// The moves of the tree walk to `p`.
pub open spec fn tree_moves(
    from: Pos,
    came: Seq<Option<Pos>>,
    dist: Map<Pos, int>,
    p: Pos,
) -> Seq<int> {
    moves(from, tree_path(came, p, dist[p] as nat))
}

/// The tree moves of a tile past the start: those of its parent and the step to it.
proof fn lemma_tree_moves_step(
    tiles: Tiles,
    from: Pos,
    visited: Seq<bool>,
    came: Seq<Option<Pos>>,
    queue: Seq<Pos>,
    index: Map<Pos, int>,
    dist: Map<Pos, int>,
    p: Pos,
)
    requires
        bfs_shape(tiles, from, visited, came, queue, index, dist),
        index.dom().contains(p),
        p != from,
    ensures
        tree_moves(from, came, dist, p) == tree_moves(from, came, dist, parent(came, p)).push(
            step_dir(parent(came, p), p),
        ),
        tree_moves(from, came, dist, p).len() == dist[p],
{
    lemma_parent(tiles, from, visited, came, queue, index, dist, p);
    let c = parent(came, p);
    lemma_tree_path(tiles, from, visited, came, queue, index, dist, p);
    lemma_tree_path(tiles, from, visited, came, queue, index, dist, c);
    lemma_moves_push(from, tree_path(came, c, dist[c] as nat), p);
}

/// Of two tiles reached in the same number of steps, the one queued first has
/// the earlier tree moves.
pub proof fn lemma_queue_order_is_lex(
    tiles: Tiles,
    from: Pos,
    visited: Seq<bool>,
    came: Seq<Option<Pos>>,
    queue: Seq<Pos>,
    index: Map<Pos, int>,
    dist: Map<Pos, int>,
    head: int,
    d: int,
    a: Pos,
    b: Pos,
)
    requires
        bfs_shape(tiles, from, visited, came, queue, index, dist),
        bfs_order(came, queue, index, head, d),
        index.dom().contains(a),
        index.dom().contains(b),
        dist[a] == dist[b],
        index[a] < index[b],
    ensures
        lex_lt(tree_moves(from, came, dist, a), tree_moves(from, came, dist, b)),
    decreases dist[a],
{
    assert(queue[index[a]] == a);
    assert(queue[index[b]] == b);
    assert(index[b] >= 1);
    lemma_parent(tiles, from, visited, came, queue, index, dist, b);
    if a == from {
        assert(dist[a] == 0);
    } else {
        lemma_parent(tiles, from, visited, came, queue, index, dist, a);
        assert(index[a] >= 1);
        lemma_order_pair(came, queue, index, head, d, index[a], index[b]);
        let pa = parent(came, a);
        let pb = parent(came, b);
        lemma_tree_moves_step(tiles, from, visited, came, queue, index, dist, a);
        lemma_tree_moves_step(tiles, from, visited, came, queue, index, dist, b);
        if index[pa] < index[pb] {
            lemma_queue_order_is_lex(tiles, from, visited, came, queue, index, dist, head, d, pa, pb);
        }
        lemma_lex_push(
            tree_moves(from, came, dist, pa),
            tree_moves(from, came, dist, pb),
            step_dir(pa, a),
            step_dir(pb, b),
        );
    }
}

/// A walk of `path.len()` steps whose first steps are those of `path`.
proof fn lemma_walk_prefix(tiles: Tiles, from: Pos, path: Seq<Pos>)
    requires
        is_walk(tiles, from, path),
        path.len() >= 1,
    ensures
        is_walk(tiles, from, path.drop_last()),
        path == path.drop_last().push(path.last()),
        step_before(from, path, path.len() - 1) == walk_end(from, path.drop_last()),
        passable(tiles, path.last()),
        adjacent(walk_end(from, path.drop_last()), path.last()),
{
    let prefix = path.drop_last();
    let k = path.len() as int;
    assert forall|i: int| 0 <= i < prefix.len() implies passable(tiles, #[trigger] prefix[i])
        && adjacent(step_before(from, prefix, i), prefix[i]) by {
        assert(prefix[i] == path[i]);
        if i > 0 {
            assert(prefix[i - 1] == path[i - 1]);
        }
    }
    assert(path =~= prefix.push(path.last()));
    assert(passable(tiles, path[k - 1]) && adjacent(step_before(from, path, k - 1), path[k - 1]));
    if k > 1 {
        assert(prefix.last() == path[k - 2]);
    }
}

/// The tile before the last of a walk to a reached tile `v` (at most as far as
/// `to`, and as far as the walk is long) was reached one step before `v`.
#[verifier::spinoff_prover]
#[verifier::rlimit(40)]
proof fn lemma_tile_before_last(
    tiles: Tiles,
    from: Pos,
    to: Pos,
    visited: Seq<bool>,
    came: Seq<Option<Pos>>,
    queue: Seq<Pos>,
    head: int,
    index: Map<Pos, int>,
    dist: Map<Pos, int>,
    v: Pos,
    walk: Seq<Pos>,
)
    requires
        bfs_shape(tiles, from, visited, came, queue, index, dist),
        0 <= head < queue.len(),
        queue[head] == to,
        bfs_closed(tiles, queue, head, index, dist),
        forall|i: int| 0 <= i < queue.len() ==> dist[#[trigger] queue[i]] <= dist[to] + 1,
        index.dom().contains(v),
        dist[v] <= dist[to],
        is_walk(tiles, from, walk),
        walk_end(from, walk) == v,
        walk.len() == dist[v],
        walk.len() >= 1,
    ensures
        is_walk(tiles, from, walk.drop_last()),
        walk == walk.drop_last().push(v),
        index.dom().contains(walk_end(from, walk.drop_last())),
        dist[walk_end(from, walk.drop_last())] == dist[v] - 1,
        adjacent(walk_end(from, walk.drop_last()), v),
        v != from,
{
    let m = walk.len() as int;
    let prefix = walk.drop_last();
    lemma_walk_prefix(tiles, from, walk);
    let w = walk_end(from, prefix);
    assert(walk.last() == v);
    assert(index.dom().contains(queue[head]));
    assert forall|i: int| head <= i < queue.len() implies dist[#[trigger] queue[i]] >= dist[to] by {
        assert(dist[queue[head]] <= dist[queue[i]]);
    }
    lemma_walk_bound(tiles, from, visited, came, queue, head, index, dist, dist[to], prefix);
    let iw = index[w];
    assert(queue[iw] == w);
    if iw >= head {
        assert(dist[queue[head]] <= dist[queue[iw]]);
    }
    assert(dist[v] <= dist[queue[iw]] + 1);
    assert(v != from) by {
        if v == from {
            assert(queue[0] == from);
        }
    }
}

/// One more step: if the tree moves of `w` come no later than the moves of a
/// walk to `w`, the tree moves of its neighbour `v` (one step further) come no
/// later than those of the walk extended to `v`.
#[verifier::spinoff_prover]
#[verifier::rlimit(40)]
proof fn lemma_extend_first(
    tiles: Tiles,
    from: Pos,
    visited: Seq<bool>,
    came: Seq<Option<Pos>>,
    queue: Seq<Pos>,
    index: Map<Pos, int>,
    dist: Map<Pos, int>,
    head: int,
    d: int,
    v: Pos,
    w: Pos,
    prefix: Seq<Pos>,
)
    requires
        bfs_shape(tiles, from, visited, came, queue, index, dist),
        bfs_order(came, queue, index, head, d),
        index.dom().contains(v),
        index.dom().contains(w),
        v != from,
        dist[w] == dist[v] - 1,
        adjacent(w, v),
        walk_end(from, prefix) == w,
        prefix.len() == dist[w],
        lex_le(tree_moves(from, came, dist, w), moves(from, prefix)),
    ensures
        lex_le(tree_moves(from, came, dist, v), moves(from, prefix.push(v))),
{
    lemma_moves_push(from, prefix, v);
    lemma_parent(tiles, from, visited, came, queue, index, dist, v);
    lemma_tree_moves_step(tiles, from, visited, came, queue, index, dist, v);
    let c = parent(came, v);
    let iv = index[v];
    assert(queue[iv] == v);
    assert(iv >= 1);
    assert(queue[index[c]] == c);
    assert(queue[index[w]] == w);
    if index[w] < index[c] {
        lemma_order_no_earlier_neighbour(came, queue, index, head, d, iv, w);
    }
    lemma_tree_path(tiles, from, visited, came, queue, index, dist, w);
    if w == c {
        lemma_lex_push(
            tree_moves(from, came, dist, c),
            moves(from, prefix),
            step_dir(c, v),
            step_dir(w, v),
        );
    } else {
        lemma_queue_order_is_lex(tiles, from, visited, came, queue, index, dist, head, d, c, w);
        lemma_tree_path(tiles, from, visited, came, queue, index, dist, c);
        lemma_lex_lt_trans(
            tree_moves(from, came, dist, c),
            tree_moves(from, came, dist, w),
            moves(from, prefix),
        );
        lemma_lex_push(
            tree_moves(from, came, dist, c),
            moves(from, prefix),
            step_dir(c, v),
            step_dir(w, v),
        );
    }
}

/// When `to` is at the head of the queue, no walk from the start to a reached
/// tile `v` (at most as far as `to`) that is as short as the tree walk has
/// earlier moves than the tree walk.
#[verifier::spinoff_prover]
#[verifier::rlimit(40)]
pub proof fn lemma_tree_moves_first(
    tiles: Tiles,
    from: Pos,
    to: Pos,
    visited: Seq<bool>,
    came: Seq<Option<Pos>>,
    queue: Seq<Pos>,
    head: int,
    index: Map<Pos, int>,
    dist: Map<Pos, int>,
    d: int,
    v: Pos,
    walk: Seq<Pos>,
)
    requires
        bfs_shape(tiles, from, visited, came, queue, index, dist),
        0 <= head < queue.len(),
        queue[head] == to,
        bfs_closed(tiles, queue, head, index, dist),
        forall|i: int| 0 <= i < queue.len() ==> dist[#[trigger] queue[i]] <= dist[to] + 1,
        bfs_order(came, queue, index, head, d),
        index.dom().contains(v),
        dist[v] <= dist[to],
        is_walk(tiles, from, walk),
        walk_end(from, walk) == v,
        walk.len() == dist[v],
    ensures
        lex_le(tree_moves(from, came, dist, v), moves(from, walk)),
    decreases walk.len(),
{
    if walk.len() == 0 {
        assert(tree_path(came, v, 0) =~= walk);
    } else {
        let prefix = walk.drop_last();
        lemma_tile_before_last(tiles, from, to, visited, came, queue, head, index, dist, v, walk);
        let w = walk_end(from, prefix);
        lemma_tree_moves_first(tiles, from, to, visited, came, queue, head, index, dist, d, w, prefix);
        lemma_extend_first(tiles, from, visited, came, queue, index, dist, head, d, v, w, prefix);
    }
}

/// `path` is a shortest walk from `from` to `to`, and of all shortest walks its
/// moves come first in dictionary order (up before down before left before
/// right). Moves fix a walk, so there is at most one such path.
pub open spec fn is_first_shortest_path(tiles: Tiles, from: Pos, to: Pos, path: Seq<Pos>) -> bool {
    &&& is_shortest_path(tiles, from, to, path)
    &&& forall|other: Seq<Pos>|
        #[trigger] is_shortest_path(tiles, from, to, other) ==> lex_le(
            moves(from, path),
            moves(from, other),
        )
}

/// The tree walk to `to`, found at the head of the queue, is the first of the
/// shortest walks.
pub proof fn lemma_found_path_is_first(
    tiles: Tiles,
    from: Pos,
    to: Pos,
    visited: Seq<bool>,
    came: Seq<Option<Pos>>,
    queue: Seq<Pos>,
    head: int,
    index: Map<Pos, int>,
    dist: Map<Pos, int>,
    path: Seq<Pos>,
)
    requires
        bfs_shape(tiles, from, visited, came, queue, index, dist),
        0 <= head < queue.len(),
        queue[head] == to,
        bfs_closed(tiles, queue, head, index, dist),
        forall|i: int| 0 <= i < queue.len() ==> dist[#[trigger] queue[i]] <= dist[to] + 1,
        bfs_order(came, queue, index, head, 0),
        path == tree_path(came, to, dist[to] as nat),
        is_shortest_path(tiles, from, to, path),
    ensures
        is_first_shortest_path(tiles, from, to, path),
{
    assert(index.dom().contains(queue[head]));
    lemma_tree_path(tiles, from, visited, came, queue, index, dist, to);
    assert forall|other: Seq<Pos>| #[trigger] is_shortest_path(tiles, from, to, other) implies lex_le(
        moves(from, path),
        moves(from, other),
    ) by {
        assert(other.len() == path.len());
        lemma_tree_moves_first(tiles, from, to, visited, came, queue, head, index, dist, 0, to, other);
    }
}

proof fn lemma_lex_lt_irreflexive(s: Seq<int>)
    ensures
        !lex_lt(s, s),
    decreases s.len(),
{
    if s.len() > 0 {
        lemma_lex_lt_irreflexive(s.drop_last());
    }
}

proof fn lemma_lex_lt_asymmetric(s: Seq<int>, t: Seq<int>)
    requires
        lex_lt(s, t),
    ensures
        !lex_lt(t, s),
        s != t,
    decreases s.len(),
{
    lemma_lex_lt_irreflexive(s);
    if lex_lt(s.drop_last(), t.drop_last()) {
        lemma_lex_lt_asymmetric(s.drop_last(), t.drop_last());
    } else {
        lemma_lex_lt_irreflexive(s.drop_last());
    }
}

/// From one tile, one move leads to one tile.
proof fn lemma_move_determines_tile(a: Pos, b: Pos, c: Pos)
    requires
        adjacent(a, b),
        adjacent(a, c),
        step_dir(a, b) == step_dir(a, c),
    ensures
        b == c,
{
}

proof fn lemma_walks_agree(tiles: Tiles, from: Pos, p: Seq<Pos>, q: Seq<Pos>, i: int)
    requires
        is_walk(tiles, from, p),
        is_walk(tiles, from, q),
        moves(from, p) == moves(from, q),
        0 <= i < p.len(),
    ensures
        p[i] == q[i],
    decreases i,
{
    assert(p.len() == moves(from, p).len() && q.len() == moves(from, q).len());
    if i > 0 {
        lemma_walks_agree(tiles, from, p, q, i - 1);
    }
    assert(step_before(from, p, i) == step_before(from, q, i));
    assert(moves(from, p)[i] == step_dir(step_before(from, p, i), p[i]));
    assert(moves(from, q)[i] == step_dir(step_before(from, q, i), q[i]));
    assert(adjacent(step_before(from, p, i), p[i]));
    assert(adjacent(step_before(from, q, i), q[i]));
    lemma_move_determines_tile(step_before(from, p, i), p[i], q[i]);
}

/// The moves of a walk fix it: two walks from one tile with the same moves
/// are the same walk.
pub proof fn law_moves_fix_the_walk(tiles: Tiles, from: Pos, p: Seq<Pos>, q: Seq<Pos>)
    requires
        is_walk(tiles, from, p),
        is_walk(tiles, from, q),
        moves(from, p) == moves(from, q),
    ensures
        p == q,
{
    assert(p.len() == moves(from, p).len() && q.len() == moves(from, q).len());
    assert forall|i: int| 0 <= i < p.len() implies p[i] == q[i] by {
        lemma_walks_agree(tiles, from, p, q, i);
    }
    assert(p =~= q);
}

/// At most one walk is the first of the shortest walks, so the path search's
/// answer is fixed by its arguments.
pub proof fn law_first_shortest_path_is_unique(
    tiles: Tiles,
    from: Pos,
    to: Pos,
    p: Seq<Pos>,
    q: Seq<Pos>,
)
    requires
        is_first_shortest_path(tiles, from, to, p),
        is_first_shortest_path(tiles, from, to, q),
    ensures
        p == q,
{
    assert(lex_le(moves(from, p), moves(from, q)));
    assert(lex_le(moves(from, q), moves(from, p)));
    if moves(from, p) != moves(from, q) {
        lemma_lex_lt_asymmetric(moves(from, p), moves(from, q));
    }
    law_moves_fix_the_walk(tiles, from, p, q);
}

/// The walk from `a` along `p` taken backwards: from the end of `p` back to `a`.
pub open spec fn reversed_walk(a: Pos, p: Seq<Pos>) -> Seq<Pos> {
    Seq::new(
        p.len(),
        |i: int|
            if i == p.len() - 1 {
                a
            } else {
                p[p.len() - 2 - i]
            },
    )
}

/// A walk from a walkable tile can be walked backwards, in as many steps.
proof fn lemma_reversed_walk_is_path(tiles: Tiles, a: Pos, b: Pos, p: Seq<Pos>)
    requires
        passable(tiles, a),
        is_path(tiles, a, b, p),
    ensures
        is_path(tiles, b, a, reversed_walk(a, p)),
        reversed_walk(a, p).len() == p.len(),
{
    let n = p.len() as int;
    let r = reversed_walk(a, p);
    if n > 0 {
        assert forall|i: int| 0 <= i < r.len() implies passable(tiles, #[trigger] r[i]) && adjacent(
            step_before(b, r, i),
            r[i],
        ) by {
            let k = n - 1 - i;
            assert(passable(tiles, p[k]) && adjacent(step_before(a, p, k), p[k]));
            if i > 0 {
                assert(step_before(b, r, i) == p[k]);
            } else {
                assert(p.last() == b);
            }
            if i < n - 1 {
                assert(r[i] == p[k - 1]);
                assert(step_before(a, p, k) == p[k - 1]);
            } else {
                assert(step_before(a, p, k) == a);
            }
        }
        assert(walk_end(b, r) == r[n - 1]);
    }
}

/// Between two walkable tiles, each is reachable from the other or neither is,
/// and a shortest walk one way is as long as a shortest walk the other way.
pub proof fn law_paths_are_symmetric(tiles: Tiles, a: Pos, b: Pos, p: Seq<Pos>, q: Seq<Pos>)
    requires
        passable(tiles, a),
        passable(tiles, b),
    ensures
        reachable(tiles, a, b) <==> reachable(tiles, b, a),
        is_shortest_path(tiles, a, b, p) && is_shortest_path(tiles, b, a, q) ==> p.len() == q.len(),
{
    if reachable(tiles, a, b) {
        let w = choose|w: Seq<Pos>| is_path(tiles, a, b, w);
        lemma_reversed_walk_is_path(tiles, a, b, w);
    }
    if reachable(tiles, b, a) {
        let w = choose|w: Seq<Pos>| is_path(tiles, b, a, w);
        lemma_reversed_walk_is_path(tiles, b, a, w);
    }
    if is_shortest_path(tiles, a, b, p) && is_shortest_path(tiles, b, a, q) {
        lemma_reversed_walk_is_path(tiles, a, b, p);
        lemma_reversed_walk_is_path(tiles, b, a, q);
        assert(q.len() <= reversed_walk(a, p).len());
        assert(p.len() <= reversed_walk(b, q).len());
    }
}

} // verus!
