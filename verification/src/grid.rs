//! The program image and the block-resolution algorithms: 4-connected flood
//! fill over same-colored codels with a directional extremum, and the
//! straight-line slide through runs of White codels.

use vstd::prelude::*;
use vstd::set_lib::lemma_len_subset;

use crate::codel::Codel;
use crate::codel::Direction;
use crate::codel::farther;
use crate::codel::vector_spec;
use crate::pietcolor::Hue;
use crate::pietcolor::PietColor;

verus! {

/// The grid a picture denotes: one sequence of codels per row.
pub open spec fn gview(p: Seq<Vec<Codel>>) -> Seq<Seq<Codel>> {
    p.map_values(|r: Vec<Codel>| r@)
}

/// A well-formed picture: non-empty, rectangular, every codel carrying its
/// own coordinates, and small enough that a count of its cells fits the
/// machine word.
pub open spec fn grid_wf(g: Seq<Seq<Codel>>) -> bool {
    &&& g.len() >= 1
    &&& g[0].len() >= 1
    &&& forall|y: int| 0 <= y < g.len() ==> (#[trigger] g[y]).len() == g[0].len()
    &&& forall|y: int, x: int|
        0 <= y < g.len() && 0 <= x < g[0].len() ==> (#[trigger] g[y][x]).x == x && g[y][x].y == y
    &&& g.len() * g[0].len() <= usize::MAX
    &&& g.len() * g[0].len() <= i64::MAX
}

/// Whether (x, y) denotes a cell of the grid.
pub open spec fn in_bounds(g: Seq<Seq<Codel>>, x: int, y: int) -> bool {
    0 <= y < g.len() && 0 <= x < g[0].len()
}

/// The position one step from (x, y) in direction `d`.
pub open spec fn next_pos(x: int, y: int, d: Direction) -> (int, int) {
    (x + vector_spec(d).0, y + vector_spec(d).1)
}

/// 4-connected adjacency of positions (no diagonals).
pub open spec fn adj(x1: int, y1: int, x2: int, y2: int) -> bool {
    (x1 == x2 && (y2 == y1 + 1 || y2 == y1 - 1)) || (y1 == y2 && (x2 == x1 + 1 || x2 == x1 - 1))
}

/// A walk through the grid starting at the seed (sx, sy): consecutive
/// positions are 4-connected, and every position visited is an in-bounds
/// cell of the seed's exact color.
pub open spec fn path_ok(g: Seq<Seq<Codel>>, sx: int, sy: int, s: Seq<(int, int)>) -> bool {
    &&& s.len() >= 1
    &&& s[0] == (sx, sy)
    &&& forall|i: int|
        0 <= i < s.len() ==> in_bounds(g, (#[trigger] s[i]).0, s[i].1)
            && g[s[i].1][s[i].0].color == g[sy][sx].color
    &&& forall|i: int|
        1 <= i < s.len() ==> adj(s[i - 1].0, s[i - 1].1, (#[trigger] s[i]).0, s[i].1)
}

/// Whether (x, y) lies in the same block as the seed: reachable by some
/// 4-connected same-color path.
pub open spec fn reachable(g: Seq<Seq<Codel>>, sx: int, sy: int, x: int, y: int) -> bool {
    exists|s: Seq<(int, int)>| #[trigger] path_ok(g, sx, sy, s) && s.last() == (x, y)
}

/// The block of the seed (sx, sy): every position 4-connected to it through
/// cells of its exact color. Defined without reference to the direction
/// pointer or the codel chooser.
pub open spec fn block_at(g: Seq<Seq<Codel>>, sx: int, sy: int) -> Set<(int, int)> {
    Set::new(|p: (int, int)| reachable(g, sx, sy, p.0, p.1))
}

/// Every member of a block is an in-bounds cell of the seed's color, and the
/// seed of an in-bounds position belongs to its own block.
pub proof fn lemma_block_members(g: Seq<Seq<Codel>>, sx: int, sy: int)
    requires
        in_bounds(g, sx, sy),
    ensures
        forall|p: (int, int)| #[trigger] block_at(g, sx, sy).contains(p)
            ==> in_bounds(g, p.0, p.1) && g[p.1][p.0].color == g[sy][sx].color,
        block_at(g, sx, sy).contains((sx, sy)),
{
    assert forall|p: (int, int)| #[trigger] block_at(g, sx, sy).contains(p)
        implies in_bounds(g, p.0, p.1) && g[p.1][p.0].color == g[sy][sx].color by {
        let s = choose|s: Seq<(int, int)>| #[trigger] path_ok(g, sx, sy, s) && s.last() == p;
        assert(s[s.len() - 1] == p);
    }
    let trivial: Seq<(int, int)> = seq![(sx, sy)];
    assert(path_ok(g, sx, sy, trivial) && trivial.last() == (sx, sy));
}

/// A same-color in-bounds neighbor of a block member is itself a member.
pub proof fn lemma_reach_step(g: Seq<Seq<Codel>>, sx: int, sy: int, tx: int, ty: int, nx: int, ny: int)
    requires
        reachable(g, sx, sy, tx, ty),
        adj(tx, ty, nx, ny),
        in_bounds(g, nx, ny),
        g[ny][nx].color == g[sy][sx].color,
    ensures
        reachable(g, sx, sy, nx, ny),
{
    let s = choose|s: Seq<(int, int)>| #[trigger] path_ok(g, sx, sy, s) && s.last() == (tx, ty);
    let s2 = s.push((nx, ny));
    assert forall|i: int| 0 <= i < s2.len()
        implies in_bounds(g, (#[trigger] s2[i]).0, s2[i].1)
            && g[s2[i].1][s2[i].0].color == g[sy][sx].color by {
        if i < s.len() {
            assert(s2[i] == s[i]);
        }
    }
    assert forall|i: int| 1 <= i < s2.len()
        implies adj(s2[i - 1].0, s2[i - 1].1, (#[trigger] s2[i]).0, s2[i].1) by {
        if i < s.len() {
            assert(s2[i] == s[i] && s2[i - 1] == s[i - 1]);
        } else {
            assert(s2[i - 1] == s[s.len() - 1] && s2[i] == (nx, ny));
        }
    }
    assert(path_ok(g, sx, sy, s2) && s2.last() == (nx, ny));
}

proof fn lemma_closed_contains_path(
    g: Seq<Seq<Codel>>,
    sx: int,
    sy: int,
    v: Set<(int, int)>,
    s: Seq<(int, int)>,
)
    requires
        v.contains((sx, sy)),
        forall|a: int, b: int, c: int, d: int|
            v.contains((a, b)) && #[trigger] adj(a, b, c, d) && in_bounds(g, c, d)
                && g[d][c].color == g[sy][sx].color ==> v.contains((c, d)),
        path_ok(g, sx, sy, s),
    ensures
        v.contains(s.last()),
    decreases s.len(),
{
    if s.len() == 1 {
        assert(s.last() == s[0]);
    } else {
        let s0 = s.drop_last();
        assert forall|i: int| 0 <= i < s0.len()
            implies in_bounds(g, (#[trigger] s0[i]).0, s0[i].1)
                && g[s0[i].1][s0[i].0].color == g[sy][sx].color by {
            assert(s0[i] == s[i]);
        }
        assert forall|i: int| 1 <= i < s0.len()
            implies adj(s0[i - 1].0, s0[i - 1].1, (#[trigger] s0[i]).0, s0[i].1) by {
            assert(s0[i] == s[i] && s0[i - 1] == s[i - 1]);
        }
        lemma_closed_contains_path(g, sx, sy, v, s0);
        let prev = s[s.len() - 2];
        let last = s[s.len() - 1];
        assert(s0.last() == prev);
        assert(adj(prev.0, prev.1, last.0, last.1));
        assert(in_bounds(g, last.0, last.1) && g[last.1][last.0].color == g[sy][sx].color);
    }
}

/// A set that contains the seed and is closed under same-color 4-connected
/// adjacency contains every position the seed can reach.
pub proof fn lemma_closed_contains_reachable(
    g: Seq<Seq<Codel>>,
    sx: int,
    sy: int,
    v: Set<(int, int)>,
    x: int,
    y: int,
)
    requires
        v.contains((sx, sy)),
        forall|a: int, b: int, c: int, d: int|
            v.contains((a, b)) && #[trigger] adj(a, b, c, d) && in_bounds(g, c, d)
                && g[d][c].color == g[sy][sx].color ==> v.contains((c, d)),
        reachable(g, sx, sy, x, y),
    ensures
        v.contains((x, y)),
{
    let s = choose|s: Seq<(int, int)>| #[trigger] path_ok(g, sx, sy, s) && s.last() == (x, y);
    lemma_closed_contains_path(g, sx, sy, v, s);
}

/// The positions of one grid row of width `w`.
pub open spec fn row_positions(y: int, w: int) -> Set<(int, int)> {
    Set::new(|p: (int, int)| p.1 == y && 0 <= p.0 < w)
}

/// All positions of a `w` by `h` grid.
pub open spec fn grid_positions(w: int, h: int) -> Set<(int, int)> {
    Set::new(|p: (int, int)| 0 <= p.0 < w && 0 <= p.1 < h)
}

proof fn lemma_disjoint_union_len<A>(s1: Set<A>, s2: Set<A>)
    requires
        s1.finite(),
        s2.finite(),
        s1.disjoint(s2),
    ensures
        s1.union(s2).finite(),
        s1.union(s2).len() == s1.len() + s2.len(),
    decreases s2.len(),
{
    if s2.len() == 0 {
        assert(s2 =~= Set::empty());
        assert(s1.union(s2) =~= s1);
    } else {
        let a = s2.choose();
        lemma_disjoint_union_len(s1, s2.remove(a));
        assert(s1.union(s2) =~= s1.union(s2.remove(a)).insert(a));
        assert(!s1.union(s2.remove(a)).contains(a));
    }
}

proof fn lemma_row_positions_card(y: int, w: int)
    requires
        w >= 0,
    ensures
        row_positions(y, w).finite(),
        row_positions(y, w).len() == w,
    decreases w,
{
    if w == 0 {
        assert(row_positions(y, 0) =~= Set::empty());
    } else {
        lemma_row_positions_card(y, w - 1);
        assert(row_positions(y, w) =~= row_positions(y, w - 1).insert((w - 1, y)));
        assert(!row_positions(y, w - 1).contains((w - 1, y)));
    }
}

/// A `w` by `h` grid has exactly `w * h` positions.
pub proof fn lemma_grid_positions_card(w: int, h: int)
    requires
        w >= 0,
        h >= 0,
    ensures
        grid_positions(w, h).finite(),
        grid_positions(w, h).len() == w * h,
    decreases h,
{
    if h == 0 {
        assert(grid_positions(w, 0) =~= Set::empty());
    } else {
        lemma_grid_positions_card(w, h - 1);
        lemma_row_positions_card(h - 1, w);
        assert(grid_positions(w, h - 1).disjoint(row_positions(h - 1, w)));
        lemma_disjoint_union_len(grid_positions(w, h - 1), row_positions(h - 1, w));
        assert(grid_positions(w, h) =~= grid_positions(w, h - 1).union(row_positions(h - 1, w)));
        assert(w * h == w * (h - 1) + w) by (nonlinear_arith);
    }
}

/// A set of in-bounds positions is finite and no larger than the whole grid.
pub proof fn lemma_block_bounded(g: Seq<Seq<Codel>>, v: Set<(int, int)>)
    requires
        grid_wf(g),
        forall|p: (int, int)| #[trigger] v.contains(p) ==> in_bounds(g, p.0, p.1),
    ensures
        v.finite(),
        v.len() <= g.len() * g[0].len(),
{
    let w = g[0].len() as int;
    let h = g.len() as int;
    lemma_grid_positions_card(w, h);
    assert(v.subset_of(grid_positions(w, h)));
    lemma_len_subset(v, grid_positions(w, h));
    assert(w * h == h * w) by (nonlinear_arith);
}

/// Whether position `p` occurs in the work queue.
pub open spec fn in_queue(q: Seq<(usize, usize)>, p: (int, int)) -> bool {
    exists|k: int| 0 <= k < q.len() && ((#[trigger] q[k]).0 as int, q[k].1 as int) == p
}

/// Every in-bounds neighbor of `p` carrying color `c` belongs to `v`.
pub open spec fn closed_at(
    g: Seq<Seq<Codel>>,
    p: (int, int),
    c: PietColor,
    v: Set<(int, int)>,
) -> bool {
    forall|q: (int, int)|
        #[trigger] adj(p.0, p.1, q.0, q.1) && in_bounds(g, q.0, q.1) && g[q.1][q.0].color == c
            ==> v.contains(q)
}

/// The flood fill's running state, apart from the closure property: the
/// visited matrix mirrors the visited set `vset`, whose members are exactly
/// counted by `count`, all lie in the seed's block, and of which `result` is
/// the extremum under the tie-break order.
pub(crate) open spec fn fill_core(
    g: Seq<Seq<Codel>>,
    sx: int,
    sy: int,
    dp: Direction,
    cc: Direction,
    visited: Seq<Vec<bool>>,
    queue: Seq<(usize, usize)>,
    vset: Set<(int, int)>,
    count: int,
    result: Codel,
) -> bool {
    &&& grid_wf(g)
    &&& in_bounds(g, sx, sy)
    &&& visited.len() == g.len()
    &&& (forall|j: int| 0 <= j < g.len() ==> (#[trigger] visited[j])@.len() == g[0].len())
    &&& (forall|j: int, i: int|
        0 <= j < g.len() && 0 <= i < g[0].len() ==> ((#[trigger] visited[j]@[i]) <==> vset.contains(
            (i, j),
        )))
    &&& (forall|p: (int, int)| #[trigger]
        vset.contains(p) ==> in_bounds(g, p.0, p.1) && g[p.1][p.0].color == g[sy][sx].color
            && reachable(g, sx, sy, p.0, p.1))
    &&& vset.contains((sx, sy))
    &&& vset.finite()
    &&& count == vset.len()
    &&& (forall|k: int|
        0 <= k < queue.len() ==> vset.contains(
            ((#[trigger] queue[k]).0 as int, queue[k].1 as int),
        ))
    &&& vset.contains((result.x as int, result.y as int))
    &&& result == g[result.y as int][result.x as int]
    &&& (forall|p: (int, int)|
        #[trigger] vset.contains(p) && p != (result.x as int, result.y as int) ==> farther(
            g[p.1][p.0],
            result,
            dp,
            cc,
        ))
}

/// Closure of the visited set under same-color adjacency, excused for
/// positions still waiting in the queue and for the single position `skip`
/// whose neighbors are being worked through.
pub(crate) open spec fn closure_except(
    g: Seq<Seq<Codel>>,
    c: PietColor,
    queue: Seq<(usize, usize)>,
    vset: Set<(int, int)>,
    skip: (int, int),
) -> bool {
    forall|p: (int, int)|
        #[trigger] vset.contains(p) && !in_queue(queue, p) && p != skip ==> closed_at(g, p, c, vset)
}

/// Takes one neighbor (nx, ny) of a popped cell: if it continues the seed's
/// block and has not been visited, marks it, queues it, counts it, and folds
/// it into the running extremum.
#[verifier::loop_isolation(false)]
fn absorb(
    picture: &Vec<Vec<Codel>>,
    sx: usize,
    sy: usize,
    dp: Direction,
    cc: Direction,
    nx: usize,
    ny: usize,
    visited: &mut Vec<Vec<bool>>,
    queue: &mut Vec<(usize, usize)>,
    count: &mut usize,
    result: &mut Codel,
    vset: Ghost<Set<(int, int)>>,
    skip: Ghost<(int, int)>,
) -> (vout: Ghost<Set<(int, int)>>)
    requires
        cc == Direction::Left || cc == Direction::Right,
        fill_core(
            gview(picture@),
            sx as int,
            sy as int,
            dp,
            cc,
            old(visited)@,
            old(queue)@,
            vset@,
            *old(count) as int,
            *old(result),
        ),
        closure_except(
            gview(picture@),
            gview(picture@)[sy as int][sx as int].color,
            old(queue)@,
            vset@,
            skip@,
        ),
        in_bounds(gview(picture@), nx as int, ny as int),
        gview(picture@)[ny as int][nx as int].color == gview(picture@)[sy as int][sx as int].color
            ==> reachable(gview(picture@), sx as int, sy as int, nx as int, ny as int),
    ensures
        fill_core(
            gview(picture@),
            sx as int,
            sy as int,
            dp,
            cc,
            final(visited)@,
            final(queue)@,
            vout@,
            *final(count) as int,
            *final(result),
        ),
        closure_except(
            gview(picture@),
            gview(picture@)[sy as int][sx as int].color,
            final(queue)@,
            vout@,
            skip@,
        ),
        ({
            let g = gview(picture@);
            if g[ny as int][nx as int].color == g[sy as int][sx as int].color && !vset@.contains(
                (nx as int, ny as int),
            ) {
                &&& vout@ == vset@.insert((nx as int, ny as int))
                &&& !vset@.contains((nx as int, ny as int))
                &&& final(queue)@ == old(queue)@.push((nx, ny))
            } else {
                &&& vout@ == vset@
                &&& final(queue)@ == old(queue)@
            }
        }),
        gview(picture@)[ny as int][nx as int].color == gview(picture@)[sy as int][sx as
            int].color ==> vout@.contains((nx as int, ny as int)),
{
    let ghost g = gview(picture@);
    let ghost seedcolor = g[sy as int][sx as int].color;
    proof {
        assert(g[ny as int].len() == g[0].len());
        assert(g[sy as int].len() == g[0].len());
    }
    let cell = picture[ny][nx];
    let seed = picture[sy][sx];
    proof {
        assert(cell == g[ny as int][nx as int]);
        assert(cell.x == nx && cell.y == ny);
    }
    if cell.color == seed.color {
        if !visited[ny][nx] {
            visited[ny][nx] = true;
            queue.push((nx, ny));
            let ghost v2 = vset@.insert((nx as int, ny as int));
            proof {
                assert(!vset@.contains((nx as int, ny as int)));
                assert forall|p: (int, int)| #[trigger] v2.contains(p) implies in_bounds(
                    g,
                    p.0,
                    p.1,
                ) by {}
                lemma_block_bounded(g, v2);
                assert(v2.len() == vset@.len() + 1);
            }
            *count = *count + 1;
            let cur: Codel = *result;
            proof {
                assert(vset@.contains((cur.x as int, cur.y as int)));
                assert((cur.x as int, cur.y as int) != (nx as int, ny as int));
            }
            let folded = cur.compare_to(&cell, dp, cc);
            *result = folded;
            proof {
                // the visited matrix still mirrors the visited set
                assert forall|j: int, i: int|
                    0 <= j < g.len() && 0 <= i < g[0].len() implies ((#[trigger] visited@[j]@[i])
                    <==> v2.contains((i, j))) by {
                    if j == ny as int {
                        assert(visited@[j]@ == old(visited)@[j]@.update(nx as int, true));
                    } else {
                        assert(visited@[j] == old(visited)@[j]);
                    }
                }
                // old queue entries keep their indexes
                assert forall|p: (int, int)| in_queue(old(queue)@, p) implies in_queue(
                    queue@,
                    p,
                ) by {
                    let k = choose|k: int|
                        0 <= k < old(queue)@.len() && ((#[trigger] old(queue)@[k]).0 as int, old(
                            queue,
                        )@[k].1 as int) == p;
                    assert(queue@[k] == old(queue)@[k]);
                }
                assert(in_queue(queue@, (nx as int, ny as int))) by {
                    assert(queue@[queue@.len() - 1] == (nx, ny));
                }
                // the extremum folds correctly: transitivity of the tie-break order
                assert forall|p: (int, int)|
                    #[trigger] v2.contains(p) && p != (folded.x as int, folded.y as int)
                    implies farther(g[p.1][p.0], folded, dp, cc) by {
                    if p == (nx as int, ny as int) {
                        assert(folded == cur);
                        assert(farther(cell, folded, dp, cc));
                    } else {
                        assert(vset@.contains(p));
                        if p != (cur.x as int, cur.y as int) {
                            assert(farther(g[p.1][p.0], cur, dp, cc));
                        }
                    }
                }
                // closure is preserved: the new member waits in the queue,
                // and a larger set stays closed wherever the old one was
                assert forall|p: (int, int)|
                    #[trigger] v2.contains(p) && !in_queue(queue@, p) && p != skip@
                    implies closed_at(g, p, seedcolor, v2) by {
                    assert(p != (nx as int, ny as int));
                    assert(vset@.contains(p));
                    assert(!in_queue(old(queue)@, p));
                    assert(closed_at(g, p, seedcolor, vset@));
                }
            }
            return Ghost(v2);
        }
    }
    proof {
        assert(queue@ == old(queue)@);
        if g[ny as int][nx as int].color == seedcolor {
            assert(old(visited)@[ny as int]@[nx as int]);
            assert(vset@.contains((nx as int, ny as int)));
        }
    }
    vset
}
pub open spec fn slide_measure(g: Seq<Seq<Codel>>, x: int, y: int, d: Direction) -> int {
    match d {
        Direction::Right => g[0].len() - x,
        Direction::Left => x + 1,
        Direction::Down => g.len() - y,
        Direction::Up => y + 1,
    }
}

/// The end of a straight slide from (x, y) in direction `d`: the last
/// position before a step in `d` would leave the grid or enter a non-White
/// cell.
pub open spec fn slide_end(g: Seq<Seq<Codel>>, x: int, y: int, d: Direction) -> (int, int)
    decreases slide_measure(g, x, y, d),
{
    let nx = next_pos(x, y, d).0;
    let ny = next_pos(x, y, d).1;
    if in_bounds(g, nx, ny) && g[ny][nx].color.hue == Hue::White {
        slide_end(g, nx, ny, d)
    } else {
        (x, y)
    }
}

/// One round of the flood fill: pops a cell from the work queue and absorbs
/// each of its four neighbors.
#[verifier::rlimit(80)]
#[verifier::loop_isolation(false)]
fn process_popped(
    picture: &Vec<Vec<Codel>>,
    x: usize,
    y: usize,
    dp: Direction,
    cc: Direction,
    visited: &mut Vec<Vec<bool>>,
    queue: &mut Vec<(usize, usize)>,
    count: &mut usize,
    result: &mut Codel,
    vs: Ghost<Set<(int, int)>>,
) -> (vout: Ghost<Set<(int, int)>>)
    requires
        cc == Direction::Left || cc == Direction::Right,
        fill_core(
            gview(picture@),
            x as int,
            y as int,
            dp,
            cc,
            old(visited)@,
            old(queue)@,
            vs@,
            *old(count) as int,
            *old(result),
        ),
        closure_except(
            gview(picture@),
            gview(picture@)[y as int][x as int].color,
            old(queue)@,
            vs@,
            (-1int, -1int),
        ),
        old(queue)@.len() > 0,
    ensures
        fill_core(
            gview(picture@),
            x as int,
            y as int,
            dp,
            cc,
            final(visited)@,
            final(queue)@,
            vout@,
            *final(count) as int,
            *final(result),
        ),
        closure_except(
            gview(picture@),
            gview(picture@)[y as int][x as int].color,
            final(queue)@,
            vout@,
            (-1int, -1int),
        ),
        vs@.subset_of(vout@),
        vout@.len() - vs@.len() == final(queue)@.len() - (old(queue)@.len() - 1),
{
    let ghost g = gview(picture@);
    let ghost seedcolor = g[y as int][x as int].color;
    let h = picture.len();
    let w = picture[0].len();
    let ghost mut vset: Set<(int, int)> = vs@;
    proof {
        assert forall|p: (int, int)| #[trigger] vset.contains(p) implies in_bounds(
            g,
            p.0,
            p.1,
        ) by {}
        lemma_block_bounded(g, vset);
        lemma_grid_positions_card(g[0].len() as int, g.len() as int);
        lemma_len_subset(vset, grid_positions(g[0].len() as int, g.len() as int));
    }
    let ghost queue0 = queue@;
    let popped = queue.pop().unwrap();
    let tx = popped.0;
    let ty = popped.1;
    let ghost t = (tx as int, ty as int);
    proof {
        assert(vset.contains(t));
        // entries other than the popped one keep their indexes
        assert forall|p: (int, int)|
            in_queue(queue0, p) && p != t implies in_queue(queue@, p) by {
            let k = choose|k: int|
                0 <= k < queue0.len() && ((#[trigger] queue0[k]).0 as int, queue0[k].1 as int)
                    == p;
            assert(k < queue0.len() - 1);
            assert(queue@[k] == queue0[k]);
        }
        assert forall|p: (int, int)|
            #[trigger] vset.contains(p) && !in_queue(queue@, p) && p != t implies closed_at(
            g,
            p,
            seedcolor,
            vset,
        ) by {
            assert(p != (-1int, -1int));
            if in_queue(queue0, p) {
                assert(in_queue(queue@, p));
            }
        }
    }
    if ty + 1 < h {
        proof {
            if g[ty + 1][tx as int].color == seedcolor {
                lemma_reach_step(g, x as int, y as int, tx as int, ty as int, tx as int, ty + 1);
            }
        }
        let Ghost(v2) = absorb(picture, x, y, dp, cc, tx, ty + 1, visited, queue, count, result, Ghost(vset), Ghost(t));
        proof { vset = v2; }
    }
    proof {
        assert(ty + 1 < h && g[ty + 1][tx as int].color == seedcolor ==> vset.contains(
            (tx as int, ty + 1)));
    }
    let ghost va = vset;
    if ty > 0 {
        proof {
            if g[ty - 1][tx as int].color == seedcolor {
                lemma_reach_step(g, x as int, y as int, tx as int, ty as int, tx as int, ty - 1);
            }
        }
        let Ghost(v2) = absorb(picture, x, y, dp, cc, tx, ty - 1, visited, queue, count, result, Ghost(vset), Ghost(t));
        proof { vset = v2; }
    }
    proof {
        assert(vset == va || (exists|q: (int, int)| vset == va.insert(q)));
        assert(ty > 0 && g[ty - 1][tx as int].color == seedcolor ==> vset.contains(
            (tx as int, ty - 1)));
    }
    let ghost vb = vset;
    if tx + 1 < w {
        proof {
            if g[ty as int][tx + 1].color == seedcolor {
                lemma_reach_step(g, x as int, y as int, tx as int, ty as int, tx + 1, ty as int);
            }
        }
        let Ghost(v2) = absorb(picture, x, y, dp, cc, tx + 1, ty, visited, queue, count, result, Ghost(vset), Ghost(t));
        proof { vset = v2; }
    }
    proof {
        assert(vset == vb || (exists|q: (int, int)| vset == vb.insert(q)));
        assert(tx + 1 < w && g[ty as int][tx + 1].color == seedcolor ==> vset.contains(
            (tx + 1, ty as int)));
    }
    let ghost vc = vset;
    if tx > 0 {
        proof {
            if g[ty as int][tx - 1].color == seedcolor {
                lemma_reach_step(g, x as int, y as int, tx as int, ty as int, tx - 1, ty as int);
            }
        }
        let Ghost(v2) = absorb(picture, x, y, dp, cc, tx - 1, ty, visited, queue, count, result, Ghost(vset), Ghost(t));
        proof { vset = v2; }
    }
    proof {
        assert(vset == vc || (exists|q: (int, int)| vset == vc.insert(q)));
        assert(tx > 0 && g[ty as int][tx - 1].color == seedcolor ==> vset.contains(
            (tx - 1, ty as int)));
        // all four neighbors of the popped cell are now covered
        assert(closed_at(g, t, seedcolor, vset)) by {
            assert forall|q: (int, int)|
                #[trigger] adj(t.0, t.1, q.0, q.1) && in_bounds(g, q.0, q.1)
                    && g[q.1][q.0].color == seedcolor implies vset.contains(q) by {
                if q.1 == t.1 + 1 {
                    assert(q == (tx as int, ty + 1));
                } else if q.1 == t.1 - 1 {
                    assert(q == (tx as int, ty - 1));
                } else if q.0 == t.0 + 1 {
                    assert(q == (tx + 1, ty as int));
                } else {
                    assert(q == (tx - 1, ty as int));
                }
            }
        }
        assert forall|p: (int, int)|
            #[trigger] vset.contains(p) && !in_queue(queue@, p) && p != (
            -1int,
            -1int,
        ) implies closed_at(g, p, seedcolor, vset) by {
            if p != t {
                assert(closed_at(g, p, seedcolor, vset));
            }
        }
    }
    Ghost(vset)
}

/// Flood-fills the block of the seed (x, y): visits every 4-connected
/// codel of the seed's exact color, counting them and folding the
/// directional tie-break comparison over all of them.
#[verifier::rlimit(80)]
#[verifier::loop_isolation(false)]
fn flood_block(picture: &Vec<Vec<Codel>>, x: usize, y: usize, dp: Direction, cc: Direction) -> (r: (
    usize,
    Codel,
))
    requires
        grid_wf(gview(picture@)),
        in_bounds(gview(picture@), x as int, y as int),
        cc == Direction::Left || cc == Direction::Right,
    ensures
        ({
            let g = gview(picture@);
            let b = block_at(g, x as int, y as int);
            &&& r.0 == b.len()
            &&& in_bounds(g, r.1.x as int, r.1.y as int)
            &&& b.contains((r.1.x as int, r.1.y as int))
            &&& r.1 == g[r.1.y as int][r.1.x as int]
            &&& r.1.color == g[y as int][x as int].color
            &&& forall|p: (int, int)|
                #[trigger] b.contains(p) && p != (r.1.x as int, r.1.y as int) ==> farther(
                    g[p.1][p.0],
                    r.1,
                    dp,
                    cc,
                )
        }),
{
    let ghost g = gview(picture@);
    let ghost seedcolor = g[y as int][x as int].color;
    let h = picture.len();
    let w = picture[0].len();
    let mut visited: Vec<Vec<bool>> = Vec::new();
    while visited.len() < h
        invariant
            visited@.len() <= h,
            forall|j: int| 0 <= j < visited@.len() ==> (#[trigger] visited@[j])@.len() == w,
            forall|j: int, i: int|
                0 <= j < visited@.len() && 0 <= i < w ==> !(#[trigger] visited@[j]@[i]),
        decreases h - visited.len(),
    {
        let mut row: Vec<bool> = Vec::new();
        while row.len() < w
            invariant
                row@.len() <= w,
                forall|i: int| 0 <= i < row@.len() ==> !(#[trigger] row@[i]),
            decreases w - row.len(),
    {
            row.push(false);
        }
        visited.push(row);
    }
    let start = picture[y][x];
    proof {
        assert(start == g[y as int][x as int]);
        assert(start.x == x && start.y == y);
    }
    let ghost blank = visited@;
    visited[y][x] = true;
    let mut queue: Vec<(usize, usize)> = Vec::new();
    queue.push((x, y));
    let mut count: usize = 1;
    let mut result: Codel = start;
    let ghost mut vset: Set<(int, int)> = Set::empty().insert((x as int, y as int));
    proof {
        let trivial: Seq<(int, int)> = seq![(x as int, y as int)];
        assert(path_ok(g, x as int, y as int, trivial) && trivial.last() == (x as int, y as int));
        assert(vset.len() == 1);
        assert forall|j: int, i: int|
            0 <= j < g.len() && 0 <= i < g[0].len() implies ((#[trigger] visited@[j]@[i])
            <==> vset.contains((i, j))) by {
            if j == y as int {
                assert(visited@[j]@ == blank[j]@.update(x as int, true));
                if i != x as int {
                    assert(!blank[j]@[i]);
                }
            } else {
                assert(visited@[j] == blank[j]);
                assert(!blank[j]@[i]);
            }
        }
        assert(queue@[0] == (x, y));
    }
    while queue.len() > 0
        invariant
            fill_core(g, x as int, y as int, dp, cc, visited@, queue@, vset, count as int, result),
            closure_except(g, seedcolor, queue@, vset, (-1int, -1int)),
        decreases 5 * (grid_positions(g[0].len() as int, g.len() as int).len() - vset.len())
            + queue@.len(),
    {
        proof {
            assert forall|p: (int, int)| #[trigger] vset.contains(p) implies in_bounds(
                g,
                p.0,
                p.1,
            ) by {}
            lemma_block_bounded(g, vset);
            lemma_grid_positions_card(g[0].len() as int, g.len() as int);
            lemma_len_subset(vset, grid_positions(g[0].len() as int, g.len() as int));
        }
        let ghost prev = vset;
        let Ghost(v2) = process_popped(picture, x, y, dp, cc, &mut visited, &mut queue,
            &mut count, &mut result, Ghost(vset));
        proof {
            vset = v2;
            lemma_len_subset(prev, vset);
            assert forall|p: (int, int)| #[trigger] vset.contains(p) implies in_bounds(
                g,
                p.0,
                p.1,
            ) by {}
            lemma_block_bounded(g, vset);
            lemma_len_subset(vset, grid_positions(g[0].len() as int, g.len() as int));
        }
    }
    proof {
        // with the queue drained the visited set is closed, so it holds the
        // whole block; its members are block members by construction
        assert(vset =~= block_at(g, x as int, y as int)) by {
            assert forall|p: (int, int)|
                block_at(g, x as int, y as int).contains(p) implies vset.contains(p) by {
                assert(reachable(g, x as int, y as int, p.0, p.1));
                assert forall|a: int, b: int, c: int, d: int|
                    vset.contains((a, b)) && #[trigger] adj(a, b, c, d) && in_bounds(g, c, d)
                        && g[d][c].color == g[y as int][x as int].color implies vset.contains(
                    (c, d),
                ) by {
                    assert(vset.contains((a, b)));
                    assert(in_bounds(g, a, b));
                    assert((a, b) != (-1int, -1int));
                    assert(!in_queue(queue@, (a, b)));
                    assert(closed_at(g, (a, b), seedcolor, vset));
                    let qq = (c, d);
                    assert(adj(a, b, qq.0, qq.1) && in_bounds(g, qq.0, qq.1) && g[qq.1][qq.0].color
                        == seedcolor);
                    assert(vset.contains(qq));
                }
                lemma_closed_contains_reachable(g, x as int, y as int, vset, p.0, p.1);
            }
        }
    }
    (count, result)
}

/// Slides straight from the White cell (x, y) in direction `dp` through
/// consecutive White cells, stopping on the last White cell of the run.
fn white_slide(picture: &Vec<Vec<Codel>>, x: usize, y: usize, dp: Direction) -> (r: Codel)
    requires
        grid_wf(gview(picture@)),
        in_bounds(gview(picture@), x as int, y as int),
        gview(picture@)[y as int][x as int].color.hue == Hue::White,
    ensures
        ({
            let g = gview(picture@);
            &&& in_bounds(g, r.x as int, r.y as int)
            &&& (r.x as int, r.y as int) == slide_end(g, x as int, y as int, dp)
            &&& r == g[r.y as int][r.x as int]
            &&& r.color.hue == Hue::White
        }),
{
    let ghost g = gview(picture@);
    let h = picture.len();
    let w = picture[0].len();
    let mut cx = x;
    let mut cy = y;
    loop
        invariant
            g == gview(picture@),
            grid_wf(g),
            w == g[0].len(),
            h == g.len(),
            in_bounds(g, cx as int, cy as int),
            g[cy as int][cx as int].color.hue == Hue::White,
            slide_end(g, cx as int, cy as int, dp) == slide_end(g, x as int, y as int, dp),
        ensures
            in_bounds(g, cx as int, cy as int),
            g[cy as int][cx as int].color.hue == Hue::White,
            (cx as int, cy as int) == slide_end(g, x as int, y as int, dp),
        decreases slide_measure(g, cx as int, cy as int, dp),
    {
        let (has, nx, ny) = match dp {
            Direction::Right => if cx + 1 < w {
                (true, cx + 1, cy)
            } else {
                (false, 0, 0)
            },
            Direction::Left => if cx > 0 {
                (true, cx - 1, cy)
            } else {
                (false, 0, 0)
            },
            Direction::Down => if cy + 1 < h {
                (true, cx, cy + 1)
            } else {
                (false, 0, 0)
            },
            Direction::Up => if cy > 0 {
                (true, cx, cy - 1)
            } else {
                (false, 0, 0)
            },
        };
        if has == false {
            break;
        }
        proof {
            assert(g[ny as int].len() == g[0].len());
        }
        if picture[ny][nx].color.hue != Hue::White {
            break;
        }
        cx = nx;
        cy = ny;
    }
    proof {
        assert(g[cy as int].len() == g[0].len());
    }
    picture[cy][cx]
}

/// Resolves the block of the codel at (x, y). For a White start it slides
/// straight in the direction of `dp`, reporting size 0 and the last White
/// codel of the run: White cells never form a counted block. Otherwise it
/// flood-fills the 4-connected region of the start's exact color, reporting
/// the region's cell count and the region's extremal codel under the
/// direction pointer `dp` with ties broken by the codel chooser `cc`.
pub fn get_farthest_codel(
    picture: &Vec<Vec<Codel>>,
    x: usize,
    y: usize,
    dp: Direction,
    cc: Direction,
) -> (r: (usize, Codel))
    requires
        grid_wf(gview(picture@)),
        in_bounds(gview(picture@), x as int, y as int),
        cc == Direction::Left || cc == Direction::Right,
    ensures
        ({
            let g = gview(picture@);
            let b = block_at(g, x as int, y as int);
            if g[y as int][x as int].color.hue == Hue::White {
                &&& r.0 == 0
                &&& in_bounds(g, r.1.x as int, r.1.y as int)
                &&& (r.1.x as int, r.1.y as int) == slide_end(g, x as int, y as int, dp)
                &&& r.1 == g[r.1.y as int][r.1.x as int]
                &&& r.1.color.hue == Hue::White
            } else {
                &&& r.0 == b.len()
                &&& in_bounds(g, r.1.x as int, r.1.y as int)
                &&& b.contains((r.1.x as int, r.1.y as int))
                &&& r.1 == g[r.1.y as int][r.1.x as int]
                &&& r.1.color == g[y as int][x as int].color
                &&& forall|p: (int, int)|
                    #[trigger] b.contains(p) && p != (r.1.x as int, r.1.y as int) ==> farther(
                        g[p.1][p.0],
                        r.1,
                        dp,
                        cc,
                    )
            }
        }),
{
    proof {
        assert(gview(picture@)[y as int].len() == gview(picture@)[0].len());
    }
    if picture[y][x].color.hue == Hue::White {
        (0, white_slide(picture, x, y, dp))
    } else {
        flood_block(picture, x, y, dp, cc)
    }
}

/// For a straight horizontal run of White cells bounded on the right by a
/// non-White cell or the grid edge, sliding in direction Right from the left
/// end of the run lands exactly on its rightmost White cell.
pub proof fn lemma_white_run_slide_right(g: Seq<Seq<Codel>>, y: int, xl: int, xr: int)
    requires
        grid_wf(g),
        0 <= y < g.len(),
        0 <= xl <= xr < g[0].len(),
        forall|x: int| xl <= x <= xr ==> (#[trigger] g[y][x]).color.hue == Hue::White,
        xr + 1 < g[0].len() ==> g[y][xr + 1].color.hue != Hue::White,
    ensures
        slide_end(g, xl, y, Direction::Right) == (xr, y),
    decreases xr - xl,
{
    assert(g[y].len() == g[0].len());
    if xl == xr {
        assert(g[y][xl].color.hue == Hue::White);
    } else {
        assert(g[y][xl + 1].color.hue == Hue::White);
        lemma_white_run_slide_right(g, y, xl + 1, xr);
    }
}

/// Whether `p` is the extremum of the position set `b`: the member that
/// beats every other member under the tie-break order.
pub open spec fn is_extremal(
    g: Seq<Seq<Codel>>,
    b: Set<(int, int)>,
    p: (int, int),
    dp: Direction,
    cc: Direction,
) -> bool {
    b.contains(p) && forall|q: (int, int)|
        #[trigger] b.contains(q) && q != p ==> farther(g[q.1][q.0], g[p.1][p.0], dp, cc)
}

/// The extremal position of the block of (sx, sy) under `dp`/`cc`.
pub open spec fn extremal_pos(
    g: Seq<Seq<Codel>>,
    sx: int,
    sy: int,
    dp: Direction,
    cc: Direction,
) -> (int, int) {
    choose|p: (int, int)| is_extremal(g, block_at(g, sx, sy), p, dp, cc)
}

/// A block has at most one extremum, so any witness is the extremum.
pub proof fn lemma_extremal_unique(
    g: Seq<Seq<Codel>>,
    sx: int,
    sy: int,
    dp: Direction,
    cc: Direction,
    p: (int, int),
)
    requires
        is_extremal(g, block_at(g, sx, sy), p, dp, cc),
    ensures
        extremal_pos(g, sx, sy, dp, cc) == p,
{
    let e = extremal_pos(g, sx, sy, dp, cc);
    assert(is_extremal(g, block_at(g, sx, sy), e, dp, cc));
    if e != p {
        assert(block_at(g, sx, sy).contains(e));
        assert(block_at(g, sx, sy).contains(p));
        assert(farther(g[e.1][e.0], g[p.1][p.0], dp, cc));
        assert(farther(g[p.1][p.0], g[e.1][e.0], dp, cc));
        assert(false);
    }
}

/// Checks whether one step from `cur_codel` in direction `dp` lands on an
/// in-bounds, non-Black codel; returns that codel on success and the
/// starting codel otherwise.
pub fn can_go_in_direction(picture: &Vec<Vec<Codel>>, cur_codel: &Codel, dp: Direction) -> (r: (
    bool,
    Codel,
))
    requires
        grid_wf(gview(picture@)),
        in_bounds(gview(picture@), cur_codel.x as int, cur_codel.y as int),
    ensures
        ({
            let g = gview(picture@);
            let np = next_pos(cur_codel.x as int, cur_codel.y as int, dp);
            &&& r.0 == (in_bounds(g, np.0, np.1) && g[np.1][np.0].color.hue != Hue::Black)
            &&& (r.0 ==> r.1 == g[np.1][np.0])
            &&& (!r.0 ==> r.1 == *cur_codel)
        }),
{
    let ghost g = gview(picture@);
    let w = picture[0].len();
    let h = picture.len();
    let (has, nx, ny) = match dp {
        Direction::Right => if cur_codel.x + 1 < w {
            (true, cur_codel.x + 1, cur_codel.y)
        } else {
            (false, 0, 0)
        },
        Direction::Left => if cur_codel.x > 0 {
            (true, cur_codel.x - 1, cur_codel.y)
        } else {
            (false, 0, 0)
        },
        Direction::Down => if cur_codel.y + 1 < h {
            (true, cur_codel.x, cur_codel.y + 1)
        } else {
            (false, 0, 0)
        },
        Direction::Up => if cur_codel.y > 0 {
            (true, cur_codel.x, cur_codel.y - 1)
        } else {
            (false, 0, 0)
        },
    };
    if has {
        proof {
            assert(g[ny as int].len() == g[0].len());
        }
        let found = picture[ny][nx];
        if found.color.hue != Hue::Black {
            (true, found)
        } else {
            (false, *cur_codel)
        }
    } else {
        (false, *cur_codel)
    }
}

} // verus!
