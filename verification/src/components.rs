use vstd::prelude::*;
use vstd::arithmetic::div_mod::lemma_fundamental_div_mod_converse;

verus! {

/// Row-major index of cell `p = (x, y)` in a grid `w` cells wide.
pub open spec fn flat(w: usize, p: (usize, usize)) -> int {
    p.1 * w + p.0
}

pub open spec fn in_grid(w: usize, h: usize, p: (usize, usize)) -> bool {
    p.0 < w && p.1 < h
}

/// Cell `p` is inside the grid and set in the mask.
pub open spec fn lit(mask: Seq<bool>, w: usize, h: usize, p: (usize, usize)) -> bool {
    in_grid(w, h, p) && mask[flat(w, p)]
}

/// The cells share an edge (4-neighbourhood).
pub open spec fn adjacent(p: (usize, usize), q: (usize, usize)) -> bool {
    ||| (p.1 == q.1 && (p.0 + 1 == q.0 || q.0 + 1 == p.0))
    ||| (p.0 == q.0 && (p.1 + 1 == q.1 || q.1 + 1 == p.1))
}

/// A 4-connected group of set mask cells with its bounding box.
pub struct Component {
    /// The cells, in the order the depth-first search took them off its stack.
    pub cells: Vec<(usize, usize)>,
    pub min_x: usize,
    pub max_x: usize,
    pub min_y: usize,
    pub max_y: usize,
}

/// The box fields of `comp` are the extreme coordinates of its cells.
pub open spec fn box_is_tight(comp: Component) -> bool {
    let cells = comp.cells@;
    &&& forall|k: int|
        0 <= k < cells.len() ==> comp.min_x <= #[trigger] cells[k].0 <= comp.max_x && comp.min_y
            <= cells[k].1 <= comp.max_y
    &&& exists|k: int| 0 <= k < cells.len() && #[trigger] cells[k].0 == comp.min_x
    &&& exists|k: int| 0 <= k < cells.len() && #[trigger] cells[k].0 == comp.max_x
    &&& exists|k: int| 0 <= k < cells.len() && #[trigger] cells[k].1 == comp.min_y
    &&& exists|k: int| 0 <= k < cells.len() && #[trigger] cells[k].1 == comp.max_y
}

/// Every cell after the first touches an earlier one, so the cells are connected.
pub open spec fn grown_by_adjacency(cells: Seq<(usize, usize)>) -> bool {
    forall|k: int|
        #![trigger cells[k]]
        0 < k < cells.len() ==> exists|j: int| 0 <= j < k && adjacent(cells[j], cells[k])
}

/// Count of unset entries.
pub open spec fn count_false(s: Seq<bool>) -> nat
    decreases s.len(),
{
    if s.len() == 0 {
        0
    } else {
        count_false(s.drop_last()) + if s.last() {
            0nat
        } else {
            1nat
        }
    }
}

proof fn lemma_count_false_set(s: Seq<bool>, i: int)
    requires
        0 <= i < s.len(),
        !s[i],
    ensures
        count_false(s.update(i, true)) + 1 == count_false(s),
    decreases s.len(),
{
    if i < s.len() - 1 {
        assert(s.update(i, true).drop_last() =~= s.drop_last().update(i, true));
        lemma_count_false_set(s.drop_last(), i);
    } else {
        assert(s.update(i, true).drop_last() =~= s.drop_last());
    }
}

proof fn lemma_flat(w: usize, h: usize, p: (usize, usize), q: (usize, usize))
    requires
        in_grid(w, h, p),
        in_grid(w, h, q),
    ensures
        0 <= flat(w, p) < w * h,
        flat(w, p) == flat(w, q) ==> p == q,
{
    assert(0 <= p.1 * w + p.0 < w * h) by (nonlinear_arith)
        requires
            p.0 < w,
            p.1 < h,
    ;
    if flat(w, p) == flat(w, q) {
        lemma_fundamental_div_mod_converse(flat(w, p), w as int, p.1 as int, p.0 as int);
        lemma_fundamental_div_mod_converse(flat(w, q), w as int, q.1 as int, q.0 as int);
    }
}

/// `visited` records exactly the cells that have an owner.
pub open spec fn visited_matches(
    visited: Seq<bool>,
    owner: spec_fn((usize, usize)) -> int,
    w: usize,
    h: usize,
) -> bool {
    &&& visited.len() == w * h
    &&& forall|p: (usize, usize)| #[trigger]
        in_grid(w, h, p) ==> visited[flat(w, p)] == (owner(p) >= 0)
}

/// Only set cells have owners.
pub open spec fn owners_lit(
    mask: Seq<bool>,
    owner: spec_fn((usize, usize)) -> int,
    w: usize,
    h: usize,
) -> bool {
    forall|p: (usize, usize)| #[trigger] in_grid(w, h, p) && owner(p) >= 0 ==> mask[flat(w, p)]
}

/// Owned cells share their owner with every set neighbour, except cells still
/// waiting on `pending`.
pub open spec fn closed_except(
    mask: Seq<bool>,
    owner: spec_fn((usize, usize)) -> int,
    w: usize,
    h: usize,
    pending: Seq<(usize, usize)>,
) -> bool {
    forall|p: (usize, usize), q: (usize, usize)|
        #![trigger adjacent(p, q), owner(p), owner(q)]
        lit(mask, w, h, p) && lit(mask, w, h, q) && adjacent(p, q) && owner(p) >= 0
            && !pending.contains(p) ==> owner(q) == owner(p)
}

/// Marks neighbour `n` and pushes it if it is a set, unvisited cell of the grid.
fn visit(
    mask: &[bool],
    w: usize,
    h: usize,
    visited: &mut Vec<bool>,
    stack: &mut Vec<(usize, usize)>,
    n: (usize, usize),
) -> (pushed: bool)
    requires
        mask@.len() == w * h,
        w * h <= usize::MAX,
        old(visited)@.len() == w * h,
    ensures
        pushed == (lit(mask@, w, h, n) && !old(visited)@[flat(w, n)]),
        final(visited)@.len() == w * h,
        pushed ==> final(stack)@ == old(stack)@.push(n),
        pushed ==> count_false(final(visited)@) + 1 == count_false(old(visited)@),
        !pushed ==> final(visited)@ == old(visited)@ && final(stack)@ == old(stack)@,
        forall|q: (usize, usize)|
            #![trigger in_grid(w, h, q)]
            in_grid(w, h, q) ==> final(visited)@[flat(w, q)] == (old(visited)@[flat(w, q)] || (
            pushed && q == n)),
{
    if n.0 < w && n.1 < h {
        proof {
            lemma_flat(w, h, n, n);
        }
        let idx = n.1 * w + n.0;
        if !visited[idx] && mask[idx] {
            let ghost v0 = visited@;
            visited.set(idx, true);
            stack.push(n);
            proof {
                lemma_count_false_set(v0, idx as int);
                assert forall|q: (usize, usize)| #[trigger] in_grid(w, h, q) implies visited@[flat(
                    w,
                    q,
                )] == (v0[flat(w, q)] || q == n) by {
                    lemma_flat(w, h, q, n);
                }
            }
            return true;
        }
    }
    false
}

/// Rank of neighbour `q` of `c` in the order they are tried: left, right, up, down.
pub open spec fn neighbour_order(c: (usize, usize), q: (usize, usize)) -> int {
    if q.1 == c.1 && q.0 + 1 == c.0 {
        0
    } else if q.1 == c.1 && c.0 + 1 == q.0 {
        1
    } else if q.0 == c.0 && q.1 + 1 == c.1 {
        2
    } else {
        3
    }
}

/// Neighbour `k` of `c` in the order tried (left, right, up, down), when its
/// coordinates exist.
pub open spec fn neighbour(c: (usize, usize), k: int) -> Option<(usize, usize)> {
    if k == 0 {
        if c.0 > 0 {
            Some(((c.0 - 1) as usize, c.1))
        } else {
            None
        }
    } else if k == 1 {
        if c.0 < usize::MAX {
            Some(((c.0 + 1) as usize, c.1))
        } else {
            None
        }
    } else if k == 2 {
        if c.1 > 0 {
            Some((c.0, (c.1 - 1) as usize))
        } else {
            None
        }
    } else {
        if c.1 < usize::MAX {
            Some((c.0, (c.1 + 1) as usize))
        } else {
            None
        }
    }
}

/// Neighbour `k` of `c` as pushed by the search: present when it is a set
/// cell not yet in `seen`.
pub open spec fn taken(
    mask: Seq<bool>,
    w: usize,
    h: usize,
    seen: Set<(usize, usize)>,
    c: (usize, usize),
    k: int,
) -> Seq<(usize, usize)> {
    match neighbour(c, k) {
        Some(n) => if lit(mask, w, h, n) && !seen.contains(n) {
            seq![n]
        } else {
            Seq::empty()
        },
        None => Seq::empty(),
    }
}

/// The cells pushed when `c` is expanded, in push order.
pub open spec fn pushes(
    mask: Seq<bool>,
    w: usize,
    h: usize,
    seen: Set<(usize, usize)>,
    c: (usize, usize),
) -> Seq<(usize, usize)> {
    taken(mask, w, h, seen, c, 0) + taken(mask, w, h, seen, c, 1) + taken(mask, w, h, seen, c, 2)
        + taken(mask, w, h, seen, c, 3)
}

/// The cells of the grid that `visited` marks.
pub open spec fn seen_of(w: usize, h: usize, visited: Seq<bool>) -> Set<(usize, usize)> {
    Set::new(|q: (usize, usize)| in_grid(w, h, q) && visited[flat(w, q)])
}

/// A depth-first search from `seed` before its first step: the marked cells,
/// the stack, and the cells taken off the stack so far.
pub open spec fn dfs_start(seed: (usize, usize)) -> (
    Set<(usize, usize)>,
    Seq<(usize, usize)>,
    Seq<(usize, usize)>,
) {
    (set![seed], seq![seed], Seq::empty())
}

/// One step of the search: take the top cell off the stack, then mark and
/// push its unmarked set neighbours, left, right, up, down.
pub open spec fn dfs_step(
    mask: Seq<bool>,
    w: usize,
    h: usize,
    st: (Set<(usize, usize)>, Seq<(usize, usize)>, Seq<(usize, usize)>),
) -> (Set<(usize, usize)>, Seq<(usize, usize)>, Seq<(usize, usize)>) {
    let c = st.1.last();
    let add = pushes(mask, w, h, st.0, c);
    (st.0.union(add.to_set()), st.1.drop_last() + add, st.2.push(c))
}

/// The search from `seed` after `n` steps (it stops once the stack is empty).
pub open spec fn dfs_steps(mask: Seq<bool>, w: usize, h: usize, seed: (usize, usize), n: nat) -> (
    Set<(usize, usize)>,
    Seq<(usize, usize)>,
    Seq<(usize, usize)>,
)
    decreases n,
{
    if n == 0 {
        dfs_start(seed)
    } else {
        let p = dfs_steps(mask, w, h, seed, (n - 1) as nat);
        if p.1.len() == 0 {
            p
        } else {
            dfs_step(mask, w, h, p)
        }
    }
}

/// `cells` is exactly the order in which a depth-first search from its first
/// cell, run to completion, takes cells off its stack.
pub open spec fn dfs_order(mask: Seq<bool>, w: usize, h: usize, cells: Seq<(usize, usize)>) -> bool {
    &&& cells.len() > 0
    &&& dfs_steps(mask, w, h, cells[0], cells.len()).1.len() == 0
    &&& dfs_steps(mask, w, h, cells[0], cells.len()).2 == cells
}

/// Characterizes the neighbours of `c` that the expansion has pushed after
/// trying the first `k` of them.
pub open spec fn expansion_state(
    mask: Seq<bool>,
    w: usize,
    h: usize,
    c: (usize, usize),
    v0: Seq<bool>,
    v: Seq<bool>,
    added: Seq<(usize, usize)>,
    k: int,
) -> bool {
    &&& v.len() == w * h
    &&& added.no_duplicates()
    &&& forall|q: (usize, usize)|
        #![trigger in_grid(w, h, q)]
        in_grid(w, h, q) ==> v[flat(w, q)] == (v0[flat(w, q)] || added.contains(q))
    &&& forall|q: (usize, usize)|
        #![trigger added.contains(q)]
        added.contains(q) <==> (lit(mask, w, h, q) && adjacent(c, q) && !v0[flat(w, q)]
            && neighbour_order(c, q) < k)
}

proof fn lemma_expansion_step(
    mask: Seq<bool>,
    w: usize,
    h: usize,
    c: (usize, usize),
    v0: Seq<bool>,
    vb: Seq<bool>,
    va: Seq<bool>,
    added: Seq<(usize, usize)>,
    n: (usize, usize),
    pushed: bool,
    k: int,
)
    requires
        expansion_state(mask, w, h, c, v0, vb, added, k),
        adjacent(c, n),
        neighbour_order(c, n) == k,
        va.len() == w * h,
        pushed == (lit(mask, w, h, n) && !vb[flat(w, n)]),
        forall|q: (usize, usize)|
            #![trigger in_grid(w, h, q)]
            in_grid(w, h, q) ==> va[flat(w, q)] == (vb[flat(w, q)] || (pushed && q == n)),
    ensures
        pushed == (lit(mask, w, h, n) && !v0[flat(w, n)]),
        expansion_state(
            mask,
            w,
            h,
            c,
            v0,
            va,
            if pushed {
                added.push(n)
            } else {
                added
            },
            k + 1,
        ),
{
    let aa = if pushed {
        added.push(n)
    } else {
        added
    };
    if in_grid(w, h, n) {
        assert(vb[flat(w, n)] == (v0[flat(w, n)] || added.contains(n)));
        assert(!added.contains(n));
    }
    assert forall|q: (usize, usize)| #[trigger] aa.contains(q) <==> added.contains(q) || (pushed
        && q == n) by {
        if pushed && q == n {
            assert(aa[aa.len() - 1] == q);
        }
        if added.contains(q) {
            let i = choose|i: int| 0 <= i < added.len() && added[i] == q;
            assert(aa[i] == q);
        }
        if aa.contains(q) {
            let i = choose|i: int| 0 <= i < aa.len() && aa[i] == q;
            if i < added.len() {
                assert(added[i] == q);
            }
        }
    }
    if pushed {
        assert(!added.contains(n));
        assert forall|i: int, j: int|
            0 <= i < aa.len() && 0 <= j < aa.len() && i != j implies aa[i] != aa[j] by {
            if i < added.len() && j < added.len() {
            } else if i < added.len() {
                assert(added.contains(aa[i]));
            } else {
                assert(added.contains(aa[j]));
            }
        }
    }
    assert forall|q: (usize, usize)| #[trigger] in_grid(w, h, q) implies va[flat(w, q)] == (
    v0[flat(w, q)] || aa.contains(q)) by {
        if in_grid(w, h, n) {
            if q == n {
                assert(vb[flat(w, q)] == (v0[flat(w, q)] || added.contains(q)));
            }
        }
    }
    assert forall|q: (usize, usize)| #[trigger]
        aa.contains(q) <==> (lit(mask, w, h, q) && adjacent(c, q) && !v0[flat(w, q)]
            && neighbour_order(c, q) < k + 1) by {
        if q == n && in_grid(w, h, n) {
            assert(vb[flat(w, n)] == (v0[flat(w, n)] || added.contains(n)));
        }
        if lit(mask, w, h, q) && adjacent(c, q) && neighbour_order(c, q) == k {
            assert(q == n);
        }
    }
}

/// Visits the four neighbours of `c`, left, right, up, down; reports the ones
/// newly reached, in the order they were pushed.
fn expand(
    mask: &[bool],
    w: usize,
    h: usize,
    visited: &mut Vec<bool>,
    stack: &mut Vec<(usize, usize)>,
    c: (usize, usize),
) -> (added: Ghost<Seq<(usize, usize)>>)
    requires
        mask@.len() == w * h,
        w * h <= usize::MAX,
        old(visited)@.len() == w * h,
        in_grid(w, h, c),
    ensures
        final(stack)@ == old(stack)@ + added@,
        count_false(final(visited)@) + added@.len() == count_false(old(visited)@),
        expansion_state(mask@, w, h, c, old(visited)@, final(visited)@, added@, 4),
        added@ == pushes(mask@, w, h, seen_of(w, h, old(visited)@), c),
{
    let ghost v0 = visited@;
    let ghost seen = seen_of(w, h, v0);
    let ghost s0 = stack@;
    let ghost mut added: Seq<(usize, usize)> = Seq::empty();
    proof {
        assert(expansion_state(mask@, w, h, c, v0, v0, added, 0));
    }
    if c.0 > 0 {
        let ghost vb = visited@;
        let pushed = visit(mask, w, h, visited, stack, (c.0 - 1, c.1));
        proof {
            lemma_expansion_step(mask@, w, h, c, v0, vb, visited@, added, (
            (c.0 - 1) as usize,
            c.1,
            ), pushed, 0);
            if pushed {
                added = added.push(((c.0 - 1) as usize, c.1));
            }
            assert(added =~= taken(mask@, w, h, seen, c, 0));
        }
    } else {
        proof {
            assert forall|q: (usize, usize)| #[trigger]
                added.contains(q) <==> (lit(mask@, w, h, q) && adjacent(c, q) && !v0[flat(w, q)]
                    && neighbour_order(c, q) < 1) by {}
            assert(added =~= taken(mask@, w, h, seen, c, 0));
        }
    }
    let ghost a0 = added;
    proof {
        assert(stack@ =~= s0 + added);
        assert(count_false(visited@) + added.len() == count_false(v0));
    }
    let ghost vb = visited@;
    let ghost sb = stack@;
    let pushed = visit(mask, w, h, visited, stack, (c.0 + 1, c.1));
    proof {
        lemma_expansion_step(mask@, w, h, c, v0, vb, visited@, added, (
        (c.0 + 1) as usize,
        c.1,
        ), pushed, 1);
        if pushed {
            added = added.push(((c.0 + 1) as usize, c.1));
        }
        assert(added =~= a0 + taken(mask@, w, h, seen, c, 1));
        assert(stack@ =~= s0 + added);
    }
    let ghost a1 = added;
    if c.1 > 0 {
        let ghost vb = visited@;
        let pushed = visit(mask, w, h, visited, stack, (c.0, c.1 - 1));
        proof {
            lemma_expansion_step(mask@, w, h, c, v0, vb, visited@, added, (
            c.0,
            (c.1 - 1) as usize,
            ), pushed, 2);
            if pushed {
                added = added.push((c.0, (c.1 - 1) as usize));
            }
            assert(added =~= a1 + taken(mask@, w, h, seen, c, 2));
        }
    } else {
        proof {
            assert forall|q: (usize, usize)| #[trigger]
                added.contains(q) <==> (lit(mask@, w, h, q) && adjacent(c, q) && !v0[flat(w, q)]
                    && neighbour_order(c, q) < 3) by {}
            assert(added =~= a1 + taken(mask@, w, h, seen, c, 2));
        }
    }
    let ghost a2 = added;
    proof {
        assert(stack@ =~= s0 + added);
    }
    let ghost vb = visited@;
    let pushed = visit(mask, w, h, visited, stack, (c.0, c.1 + 1));
    proof {
        lemma_expansion_step(mask@, w, h, c, v0, vb, visited@, added, (
        c.0,
        (c.1 + 1) as usize,
        ), pushed, 3);
        if pushed {
            added = added.push((c.0, (c.1 + 1) as usize));
        }
        assert(added =~= a2 + taken(mask@, w, h, seen, c, 3));
        assert(stack@ =~= s0 + added);
    }
    Ghost(added)
}

proof fn lemma_pushes_agree(
    mask: Seq<bool>,
    w: usize,
    h: usize,
    s1: Set<(usize, usize)>,
    s2: Set<(usize, usize)>,
    c: (usize, usize),
)
    requires
        forall|n: (usize, usize)|
            #![trigger lit(mask, w, h, n)]
            adjacent(c, n) && lit(mask, w, h, n) ==> (s1.contains(n) == s2.contains(n)),
    ensures
        pushes(mask, w, h, s1, c) == pushes(mask, w, h, s2, c),
{
    assert forall|k: int| 0 <= k < 4 implies #[trigger] taken(mask, w, h, s1, c, k) == taken(
        mask,
        w,
        h,
        s2,
        c,
        k,
    ) by {
        if let Some(n) = neighbour(c, k) {
            if lit(mask, w, h, n) {
                assert(adjacent(c, n));
            }
        }
    }
    assert(taken(mask, w, h, s1, c, 0) == taken(mask, w, h, s2, c, 0));
    assert(taken(mask, w, h, s1, c, 1) == taken(mask, w, h, s2, c, 1));
    assert(taken(mask, w, h, s1, c, 2) == taken(mask, w, h, s2, c, 2));
    assert(taken(mask, w, h, s1, c, 3) == taken(mask, w, h, s2, c, 3));
}

/// The cells of the current component are all reached, expanded ones in
/// `cells`, pending ones in `stack`; other owners are as before.
pub open spec fn growing(
    mask: Seq<bool>,
    w: usize,
    h: usize,
    owner0: spec_fn((usize, usize)) -> int,
    cur: int,
    seed: (usize, usize),
    owner: spec_fn((usize, usize)) -> int,
    visited: Seq<bool>,
    stack: Seq<(usize, usize)>,
    cells: Seq<(usize, usize)>,
) -> bool {
    &&& mask.len() == w * h
    &&& 0 <= cur
    &&& visited_matches(visited, owner, w, h)
    &&& owners_lit(mask, owner, w, h)
    &&& forall|p: (usize, usize)| #[trigger]
        in_grid(w, h, p) ==> owner0(p) < cur && (owner(p) == cur || owner(p) == owner0(p)) && (
        owner0(p) >= 0 ==> owner(p) == owner0(p))
    &&& forall|k: int|
        0 <= k < stack.len() ==> in_grid(w, h, #[trigger] stack[k]) && owner(stack[k]) == cur
    &&& forall|k: int|
        0 <= k < cells.len() ==> in_grid(w, h, #[trigger] cells[k]) && owner(cells[k]) == cur
    &&& stack.no_duplicates()
    &&& cells.no_duplicates()
    &&& stack.disjoint(cells)
    &&& forall|p: (usize, usize)| #[trigger]
        in_grid(w, h, p) && owner(p) == cur ==> stack.contains(p) || cells.contains(p)
    &&& closed_except(mask, owner, w, h, stack)
    &&& forall|p: (usize, usize)| #[trigger]
        in_grid(w, h, p) && owner(p) == cur ==> flat(w, seed) <= flat(w, p)
    &&& forall|p: (usize, usize)| #[trigger]
        lit(mask, w, h, p) && owner0(p) < 0 ==> flat(w, seed) <= flat(w, p)
    &&& (cells.len() == 0 ==> stack == seq![seed])
    &&& (cells.len() > 0 ==> cells[0] == seed)
    &&& grown_by_adjacency(cells)
    &&& (cells.len() > 0 ==> forall|k: int|
        #![trigger stack[k]]
        0 <= k < stack.len() ==> exists|j: int| 0 <= j < cells.len() && adjacent(cells[j], stack[k]))
}

proof fn lemma_adjacent_symmetric(p: (usize, usize), q: (usize, usize))
    ensures
        adjacent(p, q) == adjacent(q, p),
{
}

proof fn lemma_grow_step(
    mask: Seq<bool>,
    w: usize,
    h: usize,
    owner0: spec_fn((usize, usize)) -> int,
    cur: int,
    seed: (usize, usize),
    owner: spec_fn((usize, usize)) -> int,
    v: Seq<bool>,
    v2: Seq<bool>,
    stack: Seq<(usize, usize)>,
    cells: Seq<(usize, usize)>,
    added: Seq<(usize, usize)>,
) -> (owner2: spec_fn((usize, usize)) -> int)
    requires
        growing(mask, w, h, owner0, cur, seed, owner, v, stack, cells),
        stack.len() > 0,
        expansion_state(mask, w, h, stack.last(), v, v2, added, 4),
    ensures
        owner2 == (|q: (usize, usize)|
            if added.contains(q) {
                cur
            } else {
                owner(q)
            }),
        growing(
            mask,
            w,
            h,
            owner0,
            cur,
            seed,
            owner2,
            v2,
            stack.drop_last() + added,
            cells.push(stack.last()),
        ),
{
    let c = stack.last();
    let s1 = stack.drop_last();
    let s2 = s1 + added;
    let cells2 = cells.push(c);
    let owner2 = |q: (usize, usize)|
        if added.contains(q) {
            cur
        } else {
            owner(q)
        };
    assert(in_grid(w, h, c) && owner(c) == cur);
    // Newly added cells were unowned.
    assert forall|q: (usize, usize)| #[trigger] added.contains(q) implies in_grid(w, h, q) && owner(
        q,
    ) < 0 && lit(mask, w, h, q) && adjacent(c, q) by {
        assert(in_grid(w, h, q));
    }
    assert forall|p: (usize, usize)| stack.contains(p) implies p == c || #[trigger] s1.contains(
        p,
    ) by {
        let i = choose|i: int| 0 <= i < stack.len() && stack[i] == p;
        if i < stack.len() - 1 {
            assert(s1[i] == p);
        }
    }
    assert forall|p: (usize, usize)| #[trigger] s2.contains(p) <==> s1.contains(p) || added.contains(
        p,
    ) by {
        if s2.contains(p) {
            let i = choose|i: int| 0 <= i < s2.len() && s2[i] == p;
            if i < s1.len() {
                assert(s1[i] == p);
            } else {
                assert(added[i - s1.len()] == p);
            }
        }
        if s1.contains(p) {
            let i = choose|i: int| 0 <= i < s1.len() && s1[i] == p;
            assert(s2[i] == p);
        }
        if added.contains(p) {
            let i = choose|i: int| 0 <= i < added.len() && added[i] == p;
            assert(s2[s1.len() + i] == p);
        }
    }
    assert forall|p: (usize, usize)| #[trigger] cells2.contains(p) <==> cells.contains(p) || p
        == c by {
        if cells2.contains(p) {
            let i = choose|i: int| 0 <= i < cells2.len() && cells2[i] == p;
            if i < cells.len() {
                assert(cells[i] == p);
            }
        }
        if cells.contains(p) {
            let i = choose|i: int| 0 <= i < cells.len() && cells[i] == p;
            assert(cells2[i] == p);
        }
        if p == c {
            assert(cells2[cells.len() as int] == p);
        }
    }
    // visited and owners
    assert forall|p: (usize, usize)| #[trigger] in_grid(w, h, p) implies v2[flat(w, p)] == (owner2(
        p,
    ) >= 0) by {}
    assert forall|p: (usize, usize)| #[trigger] in_grid(w, h, p) && owner2(p) >= 0 implies mask[flat(
        w,
        p,
    )] by {}
    // stack and cells membership
    assert forall|k: int| 0 <= k < s2.len() implies in_grid(w, h, #[trigger] s2[k]) && owner2(s2[k])
        == cur by {
        if k < s1.len() {
            assert(s2[k] == stack[k]);
            assert(!added.contains(stack[k]));
        } else {
            assert(added.contains(s2[k]));
        }
    }
    assert forall|k: int| 0 <= k < cells2.len() implies in_grid(w, h, #[trigger] cells2[k]) && owner2(
        cells2[k],
    ) == cur by {
        if k < cells.len() {
            assert(cells2[k] == cells[k]);
            assert(!added.contains(cells[k]));
        } else {
            assert(!added.contains(c));
        }
    }
    // no duplicates
    assert forall|i: int, j: int| 0 <= i < s2.len() && 0 <= j < s2.len() && i != j implies s2[i]
        != s2[j] by {
        if i < s1.len() && j < s1.len() {
            assert(s1[i] == stack[i] && s1[j] == stack[j]);
        } else if i < s1.len() {
            assert(s1[i] == stack[i]);
            assert(added.contains(s2[j]));
        } else if j < s1.len() {
            assert(s1[j] == stack[j]);
            assert(added.contains(s2[i]));
        } else {
            assert(s2[i] == added[i - s1.len()] && s2[j] == added[j - s1.len()]);
        }
    }
    assert forall|i: int, j: int| 0 <= i < cells2.len() && 0 <= j < cells2.len() && i != j implies cells2[i]
        != cells2[j] by {
        if i < cells.len() && j < cells.len() {
        } else if i < cells.len() {
            assert(stack[stack.len() - 1] != cells[i]);
        } else if j < cells.len() {
            assert(stack[stack.len() - 1] != cells[j]);
        }
    }
    assert forall|i: int, j: int| 0 <= i < s2.len() && 0 <= j < cells2.len() implies s2[i]
        != cells2[j] by {
        if i < s1.len() {
            assert(s1[i] == stack[i]);
            if j < cells.len() {
            } else {
                assert(cells2[j] == stack[stack.len() - 1]);
            }
        } else {
            assert(added.contains(s2[i]));
            if j < cells.len() {
                assert(owner(cells[j]) == cur);
            }
        }
    }
    // completeness
    assert forall|p: (usize, usize)| #[trigger] in_grid(w, h, p) && owner2(p) == cur implies s2.contains(
        p,
    ) || cells2.contains(p) by {
        if !added.contains(p) {
            if stack.contains(p) {
            }
        }
    }
    // closure except the new stack
    assert forall|p: (usize, usize), q: (usize, usize)|
        #![trigger adjacent(p, q), owner2(p), owner2(q)]
        lit(mask, w, h, p) && lit(mask, w, h, q) && adjacent(p, q) && owner2(p) >= 0
            && !s2.contains(p) implies owner2(q) == owner2(p) by {
        if p == c {
            if !added.contains(q) {
                assert(v[flat(w, q)]);
                if stack.contains(q) {
                    let i = choose|i: int| 0 <= i < stack.len() && stack[i] == q;
                    assert(owner(stack[i]) == cur);
                } else {
                    lemma_adjacent_symmetric(p, q);
                    assert(adjacent(q, p));
                    assert(owner(q) >= 0);
                    assert(owner(p) == owner(q));
                }
            }
        } else {
            assert(!stack.contains(p));
            assert(owner(q) == owner(p));
        }
    }
    // seed minimality
    assert forall|p: (usize, usize)| #[trigger] in_grid(w, h, p) && owner2(p) == cur implies flat(
        w,
        seed,
    ) <= flat(w, p) by {
        if added.contains(p) {
            assert(lit(mask, w, h, p) && owner0(p) < 0);
        }
    }
    // adjacency growth
    assert forall|k: int| #![trigger cells2[k]] 0 < k < cells2.len() implies exists|j: int|
        0 <= j < k && adjacent(cells2[j], cells2[k]) by {
        if k < cells.len() {
            let j = choose|j: int| 0 <= j < k && adjacent(cells[j], cells[k]);
            assert(cells2[j] == cells[j]);
        } else {
            assert(cells.len() > 0);
            assert(stack[stack.len() - 1] == c);
            let j = choose|j: int| 0 <= j < cells.len() && adjacent(cells[j], stack[stack.len() - 1]);
            assert(cells2[j] == cells[j]);
        }
    }
    assert forall|k: int| #![trigger s2[k]] 0 <= k < s2.len() implies exists|j: int|
        0 <= j < cells2.len() && adjacent(cells2[j], s2[k]) by {
        if k < s1.len() {
            assert(cells.len() > 0);
            assert(s2[k] == stack[k]);
            let j = choose|j: int| 0 <= j < cells.len() && adjacent(cells[j], stack[k]);
            assert(cells2[j] == cells[j]);
        } else {
            assert(added.contains(s2[k]));
            assert(cells2[cells.len() as int] == c);
        }
    }
    if cells.len() == 0 {
        assert(c == seed);
        assert(s1.len() == 0);
    }
    owner2
}

/// Expanding the top of the stack is one step of the depth-first search
/// started afresh from the seed: the cells of other components never border
/// this one, so their marks do not change what is pushed.
proof fn lemma_dfs_advance(
    mask: Seq<bool>,
    w: usize,
    h: usize,
    owner0: spec_fn((usize, usize)) -> int,
    cur: int,
    seed: (usize, usize),
    owner: spec_fn((usize, usize)) -> int,
    v: Seq<bool>,
    st: Seq<(usize, usize)>,
    cl: Seq<(usize, usize)>,
    marked: Set<(usize, usize)>,
    added: Seq<(usize, usize)>,
)
    requires
        growing(mask, w, h, owner0, cur, seed, owner, v, st, cl),
        closed_except(mask, owner0, w, h, Seq::empty()),
        st.len() > 0,
        forall|q: (usize, usize)| #[trigger]
            marked.contains(q) <==> (in_grid(w, h, q) && owner(q) == cur),
        dfs_steps(mask, w, h, seed, cl.len() as nat).0 == marked,
        dfs_steps(mask, w, h, seed, cl.len() as nat).1 == st,
        dfs_steps(mask, w, h, seed, cl.len() as nat).2 == cl,
        added == pushes(mask, w, h, seen_of(w, h, v), st.last()),
    ensures
        dfs_steps(mask, w, h, seed, (cl.len() + 1) as nat).0 == marked.union(added.to_set()),
        dfs_steps(mask, w, h, seed, (cl.len() + 1) as nat).1 == st.drop_last() + added,
        dfs_steps(mask, w, h, seed, (cl.len() + 1) as nat).2 == cl.push(st.last()),
{
    let c = st.last();
    assert(owner(st[st.len() - 1]) == cur && in_grid(w, h, st[st.len() - 1]));
    assert(mask[flat(w, c)]);
    assert forall|n: (usize, usize)| #![trigger lit(mask, w, h, n)]
        adjacent(c, n) && lit(mask, w, h, n) implies (seen_of(w, h, v).contains(n)
        == marked.contains(n)) by {
        if owner(n) >= 0 && owner(n) != cur {
            assert(owner0(n) == owner(n));
            lemma_adjacent_symmetric(c, n);
            assert(adjacent(n, c));
            assert(owner0(c) == owner0(n));
        }
    }
    lemma_pushes_agree(mask, w, h, seen_of(w, h, v), marked, c);
    let n0 = cl.len() as nat;
    assert(dfs_steps(mask, w, h, seed, n0 + 1) == dfs_step(
        mask,
        w,
        h,
        dfs_steps(mask, w, h, seed, n0),
    ));
}

/// The marks after an expansion are the cells owned by the current component.
proof fn lemma_marked_grows(
    mask: Seq<bool>,
    w: usize,
    h: usize,
    c: (usize, usize),
    v: Seq<bool>,
    v2: Seq<bool>,
    cur: int,
    owner: spec_fn((usize, usize)) -> int,
    owner2: spec_fn((usize, usize)) -> int,
    marked: Set<(usize, usize)>,
    added: Seq<(usize, usize)>,
)
    requires
        forall|q: (usize, usize)| #[trigger]
            marked.contains(q) <==> (in_grid(w, h, q) && owner(q) == cur),
        expansion_state(mask, w, h, c, v, v2, added, 4),
        owner2 == (|q: (usize, usize)|
            if added.contains(q) {
                cur
            } else {
                owner(q)
            }),
    ensures
        forall|q: (usize, usize)| #[trigger]
            marked.union(added.to_set()).contains(q) <==> (in_grid(w, h, q) && owner2(q) == cur),
{
    assert forall|q: (usize, usize)| #[trigger]
        marked.union(added.to_set()).contains(q) <==> (in_grid(w, h, q) && owner2(q) == cur) by {
        if added.contains(q) {
            assert(lit(mask, w, h, q));
        }
    }
}

/// Grows the component of `seed` by depth-first search over set neighbours,
/// claiming its cells for owner `cur`.
#[verifier::rlimit(50)]
#[verifier::spinoff_prover]
fn grow(
    mask: &[bool],
    w: usize,
    h: usize,
    visited: &mut Vec<bool>,
    seed: (usize, usize),
    Ghost(owner0): Ghost<spec_fn((usize, usize)) -> int>,
    Ghost(cur): Ghost<int>,
) -> (res: (Component, Ghost<spec_fn((usize, usize)) -> int>))
    requires
        mask@.len() == w * h,
        w * h <= usize::MAX,
        0 <= cur,
        visited_matches(old(visited)@, owner0, w, h),
        owners_lit(mask@, owner0, w, h),
        closed_except(mask@, owner0, w, h, Seq::empty()),
        forall|p: (usize, usize)| #[trigger] in_grid(w, h, p) ==> owner0(p) < cur,
        lit(mask@, w, h, seed),
        owner0(seed) < 0,
        forall|p: (usize, usize)| #[trigger]
            lit(mask@, w, h, p) && owner0(p) < 0 ==> flat(w, seed) <= flat(w, p),
    ensures
        ({
            let owner = res.1@;
            let cells = res.0.cells@;
            &&& visited_matches(final(visited)@, owner, w, h)
            &&& owners_lit(mask@, owner, w, h)
            &&& closed_except(mask@, owner, w, h, Seq::empty())
            &&& forall|p: (usize, usize)| #[trigger]
                in_grid(w, h, p) ==> (owner(p) == cur || owner(p) == owner0(p))
            &&& forall|p: (usize, usize)| #[trigger]
                in_grid(w, h, p) && owner0(p) >= 0 ==> owner(p) == owner0(p)
            &&& forall|p: (usize, usize)| #[trigger]
                in_grid(w, h, p) ==> (owner(p) == cur <==> cells.contains(p))
            &&& forall|k: int| 0 <= k < cells.len() ==> in_grid(w, h, #[trigger] cells[k])
            &&& forall|k: int|
                0 <= k < cells.len() ==> flat(w, seed) <= flat(w, #[trigger] cells[k])
            &&& cells.len() > 0
            &&& cells[0] == seed
            &&& cells.no_duplicates()
            &&& grown_by_adjacency(cells)
            &&& box_is_tight(res.0)
            &&& dfs_order(mask@, w, h, cells)
        }),
{
    proof {
        lemma_flat(w, h, seed, seed);
    }
    let ghost v0 = visited@;
    let idx = seed.1 * w + seed.0;
    visited.set(idx, true);
    let mut stack: Vec<(usize, usize)> = Vec::new();
    stack.push(seed);
    let ghost mut owner: spec_fn((usize, usize)) -> int = |q: (usize, usize)|
        if q == seed {
            cur
        } else {
            owner0(q)
        };
    let mut cells: Vec<(usize, usize)> = Vec::new();
    let ghost mut marked: Set<(usize, usize)> = set![seed];
    let mut min_x = seed.0;
    let mut max_x = seed.0;
    let mut min_y = seed.1;
    let mut max_y = seed.1;
    proof {
        assert forall|p: (usize, usize)| #[trigger] in_grid(w, h, p) implies visited@[flat(w, p)]
            == (owner(p) >= 0) by {
            lemma_flat(w, h, p, seed);
        }
        assert(stack@ =~= seq![seed]);
        assert forall|p: (usize, usize)| #[trigger]
            in_grid(w, h, p) && owner(p) == cur implies stack@.contains(p) || cells@.contains(p) by {
            assert(stack@[0] == seed);
        }
        assert forall|p: (usize, usize), q: (usize, usize)|
            #![trigger adjacent(p, q), owner(p), owner(q)]
            lit(mask@, w, h, p) && lit(mask@, w, h, q) && adjacent(p, q) && owner(p) >= 0
                && !stack@.contains(p) implies owner(q) == owner(p) by {
            if p == seed {
                assert(stack@[0] == seed);
            }
            assert(owner0(p) >= 0);
            assert(!Seq::<(usize, usize)>::empty().contains(p));
        }
        assert(growing(mask@, w, h, owner0, cur, seed, owner, visited@, stack@, cells@));
        assert(dfs_steps(mask@, w, h, seed, 0).1 =~= stack@);
        assert(dfs_steps(mask@, w, h, seed, 0).2 =~= cells@);
    }
    while stack.len() > 0
        invariant
            w * h <= usize::MAX,
            growing(mask@, w, h, owner0, cur, seed, owner, visited@, stack@, cells@),
            closed_except(mask@, owner0, w, h, Seq::empty()),
            forall|q: (usize, usize)| #[trigger]
                marked.contains(q) <==> (in_grid(w, h, q) && owner(q) == cur),
            dfs_steps(mask@, w, h, seed, cells@.len() as nat).0 == marked,
            dfs_steps(mask@, w, h, seed, cells@.len() as nat).1 == stack@,
            dfs_steps(mask@, w, h, seed, cells@.len() as nat).2 == cells@,
            forall|k: int|
                0 <= k < cells@.len() ==> min_x <= #[trigger] cells@[k].0 <= max_x && min_y
                    <= cells@[k].1 <= max_y,
            cells@.len() == 0 ==> min_x == seed.0 && max_x == seed.0 && min_y == seed.1 && max_y
                == seed.1,
            cells@.len() > 0 ==> (exists|k: int| 0 <= k < cells@.len() && #[trigger] cells@[k].0 == min_x),
            cells@.len() > 0 ==> (exists|k: int| 0 <= k < cells@.len() && #[trigger] cells@[k].0 == max_x),
            cells@.len() > 0 ==> (exists|k: int| 0 <= k < cells@.len() && #[trigger] cells@[k].1 == min_y),
            cells@.len() > 0 ==> (exists|k: int| 0 <= k < cells@.len() && #[trigger] cells@[k].1 == max_y),
        decreases 2 * count_false(visited@) + stack@.len(),
    {
        let ghost v = visited@;
        let ghost st = stack@;
        let ghost cl = cells@;
        let c = stack.pop().unwrap();
        proof {
            assert(c == st.last());
            assert(stack@ =~= st.drop_last());
        }
        cells.push(c);
        if c.0 < min_x {
            min_x = c.0;
        }
        if c.0 > max_x {
            max_x = c.0;
        }
        if c.1 < min_y {
            min_y = c.1;
        }
        if c.1 > max_y {
            max_y = c.1;
        }
        proof {
            assert(in_grid(w, h, st[st.len() - 1]));
        }
        let Ghost(added) = expand(mask, w, h, visited, &mut stack, c);
        proof {
            lemma_dfs_advance(mask@, w, h, owner0, cur, seed, owner, v, st, cl, marked, added);
            let ghost owner_b = owner;
            owner = lemma_grow_step(mask@, w, h, owner0, cur, seed, owner, v, visited@, st, cl, added);
            lemma_marked_grows(mask@, w, h, c, v, visited@, cur, owner_b, owner, marked, added);
            marked = marked.union(added.to_set());
            assert(stack@ =~= st.drop_last() + added);
            assert(cells@ =~= cl.push(c));
            let n = cells@.len() - 1;
            assert(cells@[n] == c);
            if cl.len() == 0 {
                assert(cells@.len() == 1);
            } else {
                assert(forall|k: int| 0 <= k < cl.len() ==> cells@[k] == cl[k]);
            }
        }
    }
    proof {
        assert(stack@ =~= Seq::<(usize, usize)>::empty());
        assert(cells@[0] == seed);
        assert forall|p: (usize, usize)| #[trigger] in_grid(w, h, p) implies (owner(p) == cur
            <==> cells@.contains(p)) by {
            if cells@.contains(p) {
                let k = choose|k: int| 0 <= k < cells@.len() && cells@[k] == p;
                assert(owner(cells@[k]) == cur);
            }
        }
        assert forall|k: int| 0 <= k < cells@.len() implies flat(w, seed) <= flat(
            w,
            #[trigger] cells@[k],
        ) by {
            assert(in_grid(w, h, cells@[k]) && owner(cells@[k]) == cur);
        }
    }
    let comp = Component { cells, min_x, max_x, min_y, max_y };
    (comp, Ghost(owner))
}

/// Everything before raster position `pos` has been claimed: each owned cell
/// lies in the component its owner names, and the finished components have
/// all their properties.
pub open spec fn scanned(
    mask: Seq<bool>,
    w: usize,
    h: usize,
    owner: spec_fn((usize, usize)) -> int,
    visited: Seq<bool>,
    comps: Seq<Component>,
    pos: int,
) -> bool {
    &&& visited_matches(visited, owner, w, h)
    &&& owners_lit(mask, owner, w, h)
    &&& closed_except(mask, owner, w, h, Seq::empty())
    &&& forall|p: (usize, usize)| #[trigger]
        in_grid(w, h, p) ==> owner(p) < comps.len() && (owner(p) >= 0 ==> comps[owner(
            p,
        )].cells@.contains(p))
    &&& forall|c: int, k: int|
        0 <= c < comps.len() && 0 <= k < comps[c].cells@.len() ==> in_grid(
            w,
            h,
            #[trigger] comps[c].cells@[k],
        ) && owner(comps[c].cells@[k]) == c
    &&& forall|c: int|
        #![trigger comps[c]]
        0 <= c < comps.len() ==> {
            let cells = comps[c].cells@;
            &&& cells.len() > 0
            &&& cells.no_duplicates()
            &&& grown_by_adjacency(cells)
            &&& box_is_tight(comps[c])
            &&& dfs_order(mask, w, h, cells)
            &&& flat(w, cells[0]) < pos
            &&& forall|k: int| 0 <= k < cells.len() ==> flat(w, cells[0]) <= flat(w, #[trigger] cells[k])
        }
    &&& forall|c1: int, c2: int|
        0 <= c1 < c2 < comps.len() ==> flat(w, (#[trigger] comps[c1]).cells@[0]) < flat(
            w,
            (#[trigger] comps[c2]).cells@[0],
        )
    &&& forall|p: (usize, usize)| #[trigger] lit(mask, w, h, p) && flat(w, p) < pos ==> owner(p) >= 0
}

/// Splits the set cells of a `width` x `height` mask into 4-connected
/// components, scanning seeds in raster order and growing each by depth-first
/// search.
pub fn connected_components(mask: &[bool], width: usize, height: usize) -> (comps: Vec<Component>)
    requires
        mask@.len() == width * height,
    ensures
        forall|c: int, k: int|
            0 <= c < comps@.len() && 0 <= k < comps@[c].cells@.len() ==> lit(
                mask@,
                width,
                height,
                #[trigger] comps@[c].cells@[k],
            ),
        forall|c1: int, k1: int, c2: int, k2: int|
            0 <= c1 < comps@.len() && 0 <= k1 < comps@[c1].cells@.len() && 0 <= c2 < comps@.len()
                && 0 <= k2 < comps@[c2].cells@.len() && #[trigger] comps@[c1].cells@[k1]
                == #[trigger] comps@[c2].cells@[k2] ==> c1 == c2 && k1 == k2,
        forall|p: (usize, usize)|
            #[trigger] lit(mask@, width, height, p) ==> exists|c: int, k: int|
                0 <= c < comps@.len() && 0 <= k < comps@[c].cells@.len() && #[trigger] comps@[c].cells@[k]
                    == p,
        forall|c: int, k: int, q: (usize, usize)|
            0 <= c < comps@.len() && 0 <= k < comps@[c].cells@.len() && lit(mask@, width, height, q)
                && #[trigger] adjacent(comps@[c].cells@[k], q) ==> comps@[c].cells@.contains(q),
        forall|c: int|
            #![trigger comps@[c]]
            0 <= c < comps@.len() ==> {
                let cells = comps@[c].cells@;
                &&& cells.len() > 0
                &&& grown_by_adjacency(cells)
                &&& box_is_tight(comps@[c])
                &&& dfs_order(mask@, width, height, cells)
                &&& forall|k: int|
                    0 <= k < cells.len() ==> flat(width, cells[0]) <= flat(width, #[trigger] cells[k])
            },
        forall|c1: int, c2: int|
            0 <= c1 < c2 < comps@.len() ==> flat(width, (#[trigger] comps@[c1]).cells@[0]) < flat(
                width,
                (#[trigger] comps@[c2]).cells@[0],
            ),
{
    let w = width;
    let h = height;
    let total = mask.len();
    let mut visited: Vec<bool> = Vec::new();
    let mut t: usize = 0;
    while t < total
        invariant
            total == mask@.len(),
            t <= total,
            visited@.len() == t,
            forall|i: int| 0 <= i < t ==> !#[trigger] visited@[i],
        decreases total - t,
    {
        visited.push(false);
        t = t + 1;
    }
    let ghost mut owner: spec_fn((usize, usize)) -> int = |q: (usize, usize)| -1int;
    let mut comps: Vec<Component> = Vec::new();
    proof {
        assert forall|p: (usize, usize)| #[trigger] in_grid(w, h, p) implies visited@[flat(w, p)]
            == (owner(p) >= 0) by {
            lemma_flat(w, h, p, p);
        }
        assert(scanned(mask@, w, h, owner, visited@, comps@, 0));
    }
    let mut y: usize = 0;
    while y < h
        invariant
            mask@.len() == w * h,
            w * h <= usize::MAX,
            y <= h,
            scanned(mask@, w, h, owner, visited@, comps@, (y * w) as int),
        decreases h - y,
    {
        let mut x: usize = 0;
        while x < w
            invariant
                mask@.len() == w * h,
                w * h <= usize::MAX,
                y < h,
                x <= w,
                scanned(mask@, w, h, owner, visited@, comps@, y * w + x),
            decreases w - x,
        {
            let seed = (x, y);
            proof {
                lemma_flat(w, h, seed, seed);
            }
            let idx = y * w + x;
            if mask[idx] && !visited[idx] {
                let ghost owner0 = owner;
                let ghost comps0 = comps@;
                let ghost cur = comps@.len() as int;
                proof {
                    assert(in_grid(w, h, seed));
                    assert forall|p: (usize, usize)| #[trigger]
                        lit(mask@, w, h, p) && owner0(p) < 0 implies flat(w, seed) <= flat(
                        w,
                        p,
                    ) by {}
                }
                let (comp, Ghost(owner1)) = grow(
                    mask,
                    w,
                    h,
                    &mut visited,
                    seed,
                    Ghost(owner0),
                    Ghost(cur),
                );
                comps.push(comp);
                proof {
                    owner = owner1;
                    let pos = y * w + x;
                    assert(comps@[cur] == comp);
                    assert forall|c: int| 0 <= c < cur implies #[trigger] comps@[c] == comps0[c] by {}
                    assert forall|p: (usize, usize)| #[trigger] in_grid(w, h, p) implies owner(p)
                        < comps@.len() && (owner(p) >= 0 ==> comps@[owner(p)].cells@.contains(p)) by {
                        if owner(p) >= 0 && owner(p) != cur {
                            assert(owner0(p) == owner(p));
                            assert(comps@[owner(p)] == comps0[owner(p)]);
                        }
                    }
                    assert forall|c: int, k: int|
                        0 <= c < comps@.len() && 0 <= k < comps@[c].cells@.len() implies in_grid(
                        w,
                        h,
                        #[trigger] comps@[c].cells@[k],
                    ) && owner(comps@[c].cells@[k]) == c by {
                        if c < cur {
                            assert(comps@[c] == comps0[c]);
                            assert(owner0(comps0[c].cells@[k]) == c);
                        } else {
                            assert(comp.cells@.contains(comp.cells@[k]));
                        }
                    }
                    assert forall|c: int|
                        #![trigger comps@[c]]
                        0 <= c < comps@.len() implies flat(w, comps@[c].cells@[0]) < pos + 1 by {
                        if c < cur {
                            assert(comps@[c] == comps0[c]);
                        }
                    }
                    assert forall|c1: int, c2: int|
                        0 <= c1 < c2 < comps@.len() implies flat(
                        w,
                        (#[trigger] comps@[c1]).cells@[0],
                    ) < flat(w, (#[trigger] comps@[c2]).cells@[0]) by {
                        assert(comps@[c1] == comps0[c1]);
                        if c2 < cur {
                            assert(comps@[c2] == comps0[c2]);
                        }
                    }
                    assert forall|p: (usize, usize)| #[trigger]
                        lit(mask@, w, h, p) && flat(w, p) < pos + 1 implies owner(p) >= 0 by {
                        lemma_flat(w, h, p, seed);
                        if flat(w, p) < pos {
                            assert(owner0(p) >= 0);
                        } else {
                            assert(p == seed);
                            assert(comp.cells@[0] == seed);
                            assert(comp.cells@.contains(seed));
                        }
                    }
                    assert(scanned(mask@, w, h, owner, visited@, comps@, pos + 1));
                }
            } else {
                proof {
                    let pos = y * w + x;
                    assert forall|p: (usize, usize)| #[trigger]
                        lit(mask@, w, h, p) && flat(w, p) < pos + 1 implies owner(p) >= 0 by {
                        lemma_flat(w, h, p, seed);
                        if flat(w, p) == pos {
                            assert(p == seed);
                        }
                    }
                }
            }
            x = x + 1;
        }
        proof {
            assert(y * w + w == (y + 1) * w) by (nonlinear_arith);
        }
        y = y + 1;
    }
    proof {
        assert forall|p: (usize, usize)| #[trigger] lit(mask@, w, h, p) implies exists|c: int, k: int|
            0 <= c < comps@.len() && 0 <= k < comps@[c].cells@.len() && #[trigger] comps@[c].cells@[k]
                == p by {
            lemma_flat(w, h, p, p);
            assert(h * w == w * h) by (nonlinear_arith);
            let c = owner(p);
            assert(comps@[c].cells@.contains(p));
            let k = choose|k: int| 0 <= k < comps@[c].cells@.len() && comps@[c].cells@[k] == p;
        }
        assert forall|c1: int, k1: int, c2: int, k2: int|
            0 <= c1 < comps@.len() && 0 <= k1 < comps@[c1].cells@.len() && 0 <= c2 < comps@.len()
                && 0 <= k2 < comps@[c2].cells@.len() && #[trigger] comps@[c1].cells@[k1]
                == #[trigger] comps@[c2].cells@[k2] implies c1 == c2 && k1 == k2 by {
            assert(comps@[c1].cells@.no_duplicates());
        }
        assert forall|c: int, k: int, q: (usize, usize)|
            0 <= c < comps@.len() && 0 <= k < comps@[c].cells@.len() && lit(mask@, w, h, q)
                && #[trigger] adjacent(comps@[c].cells@[k], q) implies comps@[c].cells@.contains(
            q,
        ) by {
            let p = comps@[c].cells@[k];
            assert(owner(p) == c);
            assert(!Seq::<(usize, usize)>::empty().contains(p));
            assert(in_grid(w, h, q));
        }
    }
    comps
}

} // verus!
