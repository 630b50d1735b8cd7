use vstd::prelude::*;

verus! {

/// The reference graph of a section: `g[u]` lists the fields that field `u` refers to.
pub open spec fn edges_in_range(g: Seq<Seq<int>>) -> bool {
    forall|u: int, j: int|
        0 <= u < g.len() && 0 <= j < g[u].len() ==> 0 <= #[trigger] g[u][j] < g.len()
}

pub open spec fn has_edge(g: Seq<Seq<int>>, u: int, w: int) -> bool {
    0 <= u < g.len() && g[u].contains(w)
}

/// A non-empty walk along the edges of `g`.
pub open spec fn is_path(g: Seq<Seq<int>>, p: Seq<int>) -> bool {
    &&& p.len() > 0
    &&& forall|k: int| 0 <= k < p.len() - 1 ==> has_edge(g, #[trigger] p[k], p[k + 1])
}

/// `b` is reached from `a` by following zero or more edges.
pub open spec fn reaches(g: Seq<Seq<int>>, a: int, b: int) -> bool {
    exists|p: Seq<int>| is_path(g, p) && p[0] == a && p.last() == b
}

/// Every edge leads to a field of strictly lower rank.
pub open spec fn ranked(g: Seq<Seq<int>>, rank: Seq<nat>) -> bool {
    &&& rank.len() == g.len()
    &&& forall|u: int, j: int|
        0 <= u < g.len() && 0 <= j < g[u].len() ==> #[trigger] rank[g[u][j]] < rank[u]
}

/// The graph has no closed chain of edges.
pub open spec fn acyclic(g: Seq<Seq<int>>) -> bool {
    exists|rank: Seq<nat>| ranked(g, rank)
}

/// `order` lists every field once, each after all the fields it refers to; `pos` is the
/// place of each field in `order`.
pub open spec fn is_topological(g: Seq<Seq<int>>, order: Seq<usize>, pos: Seq<usize>) -> bool {
    &&& pos.len() == g.len()
    &&& forall|u: int| 0 <= u < g.len() ==> #[trigger] pos[u] < order.len() && order[pos[u] as int] == u
    &&& forall|k: int| 0 <= k < order.len() ==> #[trigger] order[k] < g.len() && pos[order[k] as int] == k
    &&& forall|u: int, j: int|
        0 <= u < g.len() && 0 <= j < g[u].len() ==> #[trigger] pos[g[u][j]] < pos[u]
}

pub open spec fn graph_view(g: &Vec<Vec<usize>>) -> Seq<Seq<int>> {
    Seq::new(g@.len(), |u: int| g@[u]@.map_values(|w: usize| w as int))
}

/// Along a path the rank never grows, and it falls on every step.
proof fn lemma_path_rank(g: Seq<Seq<int>>, rank: Seq<nat>, p: Seq<int>)
    requires
        edges_in_range(g),
        ranked(g, rank),
        is_path(g, p),
        0 <= p[0] < g.len(),
    ensures
        0 <= p.last() < g.len(),
        rank[p.last()] + p.len() - 1 <= rank[p[0]],
    decreases p.len(),
{
    if p.len() > 1 {
        let q = p.drop_first();
        assert(has_edge(g, p[0], p[1]));
        let j = choose|j: int| 0 <= j < g[p[0]].len() && g[p[0]][j] == p[1];
        assert(rank[g[p[0]][j]] < rank[p[0]]);
        assert forall|k: int| 0 <= k < q.len() - 1 implies has_edge(g, #[trigger] q[k], q[k + 1]) by {
            assert(q[k] == p[k + 1]);
            assert(has_edge(g, p[k + 1], p[k + 2]));
        };
        lemma_path_rank(g, rank, q);
    }
}

/// An edge from `a` to `b` together with a way back from `b` to `a` closes a cycle: no
/// ranking of the graph exists.
pub proof fn lemma_closed_chain_is_cyclic(g: Seq<Seq<int>>, a: int, b: int)
    requires
        edges_in_range(g),
        has_edge(g, a, b),
        reaches(g, b, a),
    ensures
        !acyclic(g),
{
    let p = choose|p: Seq<int>| is_path(g, p) && p[0] == b && p.last() == a;
    if acyclic(g) {
        let rank = choose|rank: Seq<nat>| ranked(g, rank);
        let j = choose|j: int| 0 <= j < g[a].len() && g[a][j] == b;
        assert(0 <= g[a][j] < g.len());
        lemma_path_rank(g, rank, p);
        assert(rank[g[a][j]] < rank[a]);
    }
}

/// A topological order is a ranking: its graph has no cycle.
pub proof fn lemma_topological_is_acyclic(g: Seq<Seq<int>>, order: Seq<usize>, pos: Seq<usize>)
    requires
        edges_in_range(g),
        is_topological(g, order, pos),
    ensures
        acyclic(g),
{
    let rank = pos.map_values(|k: usize| k as nat);
    assert forall|u: int, j: int| 0 <= u < g.len() && 0 <= j < g[u].len() implies #[trigger] rank[g[u][j]]
        < rank[u] by {
        assert(0 <= g[u][j] < g.len());
        assert(pos[g[u][j]] < pos[u]);
    };
    assert(ranked(g, rank));
}

/// The state of a field during a depth-first walk.
enum Mark {
    Unvisited,
    InProgress,
    /// Finished, as the given entry of the finishing order.
    Done(usize),
}

spec fn unvisited_count(m: Seq<Mark>) -> nat
    decreases m.len(),
{
    if m.len() == 0 {
        0
    } else {
        unvisited_count(m.drop_last()) + if m.last() is Unvisited {
            1nat
        } else {
            0nat
        }
    }
}

/// `after` comes from `before` by marks that only move forward.
spec fn advances(before: Seq<Mark>, after: Seq<Mark>) -> bool {
    &&& after.len() == before.len()
    &&& forall|u: int|
        0 <= u < before.len() ==> {
            &&& (before[u] is Done ==> #[trigger] after[u] == before[u])
            &&& (before[u] is InProgress ==> after[u] is InProgress)
            &&& (after[u] is Unvisited ==> before[u] is Unvisited)
        }
}

proof fn lemma_advance_count(before: Seq<Mark>, after: Seq<Mark>)
    requires
        after.len() == before.len(),
        forall|u: int| 0 <= u < before.len() && (#[trigger] after[u]) is Unvisited ==> before[u] is Unvisited,
    ensures
        unvisited_count(after) <= unvisited_count(before),
    decreases before.len(),
{
    if before.len() > 0 {
        let b = before.drop_last();
        let a = after.drop_last();
        assert forall|u: int| 0 <= u < b.len() && (#[trigger] a[u]) is Unvisited implies b[u] is Unvisited by {
            assert(after[u] is Unvisited);
        };
        lemma_advance_count(b, a);
        assert(after[after.len() - 1] is Unvisited ==> before[before.len() - 1] is Unvisited);
    }
}

proof fn lemma_leave_unvisited(m: Seq<Mark>, v: int, x: Mark)
    requires
        0 <= v < m.len(),
        m[v] is Unvisited,
        !(x is Unvisited),
    ensures
        unvisited_count(m.update(v, x)) < unvisited_count(m),
    decreases m.len(),
{
    let m2 = m.update(v, x);
    if v == m.len() - 1 {
        assert(m2.drop_last() =~= m.drop_last());
    } else {
        assert(m2.drop_last() =~= m.drop_last().update(v, x));
        lemma_leave_unvisited(m.drop_last(), v, x);
    }
}

proof fn lemma_advances_trans(m0: Seq<Mark>, m1: Seq<Mark>, m2: Seq<Mark>)
    requires
        advances(m0, m1),
        advances(m1, m2),
    ensures
        advances(m0, m2),
{
    assert forall|u: int| 0 <= u < m0.len() implies {
        &&& (m0[u] is Done ==> #[trigger] m2[u] == m0[u])
        &&& (m0[u] is InProgress ==> m2[u] is InProgress)
        &&& (m2[u] is Unvisited ==> m0[u] is Unvisited)
    } by {
        assert(m1[u] is Unvisited ==> m0[u] is Unvisited);
        assert(m0[u] is Done ==> m1[u] == m0[u]);
    };
}

proof fn lemma_prefix_trans(o0: Seq<usize>, o1: Seq<usize>, o2: Seq<usize>)
    requires
        o0.is_prefix_of(o1),
        o1.is_prefix_of(o2),
    ensures
        o0.is_prefix_of(o2),
{
    assert forall|k: int| 0 <= k < o0.len() implies o0[k] == o2[k] by {
        assert(o0[k] == o1[k]);
    };
}

/// A path that holds `w` leads from `w` to its last field.
proof fn lemma_stack_closes(g: Seq<Seq<int>>, stack: Seq<int>, w: int)
    requires
        forall|k: int| 0 <= k < stack.len() - 1 ==> has_edge(g, #[trigger] stack[k], stack[k + 1]),
        stack.contains(w),
    ensures
        reaches(g, w, stack.last()),
{
    let k = choose|k: int| 0 <= k < stack.len() && stack[k] == w;
    let p = stack.subrange(k, stack.len() as int);
    assert forall|i: int| 0 <= i < p.len() - 1 implies has_edge(g, #[trigger] p[i], p[i + 1]) by {
        assert(p[i] == stack[k + i]);
        assert(p[i + 1] == stack[k + i + 1]);
    };
    assert(p[0] == w);
    assert(p.last() == stack.last());
    assert(is_path(g, p));
}

/// The invariant of the walk: the fields in progress are those on the stack, which is a
/// path; finished fields are listed in `order` after every field they refer to.
spec fn walk_inv(g: Seq<Seq<int>>, marks: Seq<Mark>, order: Seq<usize>, stack: Seq<int>) -> bool {
    &&& edges_in_range(g)
    &&& marks.len() == g.len()
    &&& forall|u: int| 0 <= u < g.len() ==> (#[trigger] marks[u] is InProgress <==> stack.contains(u))
    &&& forall|k: int| 0 <= k < stack.len() ==> 0 <= #[trigger] stack[k] < g.len()
    &&& forall|k: int| 0 <= k < stack.len() - 1 ==> has_edge(g, #[trigger] stack[k], stack[k + 1])
    &&& forall|k: int|
        0 <= k < order.len() ==> #[trigger] order[k] < g.len() && marks[order[k] as int] is Done
            && marks[order[k] as int]->0 == k
    &&& forall|u: int|
        0 <= u < g.len() && #[trigger] marks[u] is Done ==> marks[u]->0 < order.len() && order[marks[u]->0 as int] == u
    &&& forall|u: int, j: int|
        0 <= u < g.len() && marks[u] is Done && 0 <= j < g[u].len() ==> (#[trigger] marks[g[u][j]]) is Done
            && marks[g[u][j]]->0 < marks[u]->0
}

fn visit(
    g: &Vec<Vec<usize>>,
    v: usize,
    marks: &mut Vec<Mark>,
    order: &mut Vec<usize>,
    Ghost(stack): Ghost<Seq<int>>,
    Ghost(budget): Ghost<nat>,
) -> (r: Result<(), (usize, usize)>)
    requires
        unvisited_count(old(marks)@) <= budget,
        v < g.len(),
        old(marks)@[v as int] is Unvisited,
        walk_inv(graph_view(g), old(marks)@, old(order)@, stack),
        stack.len() > 0 ==> has_edge(graph_view(g), stack.last(), v as int),
    ensures
        r is Ok ==> {
            &&& walk_inv(graph_view(g), final(marks)@, final(order)@, stack)
            &&& final(marks)@[v as int] is Done
            &&& advances(old(marks)@, final(marks)@)
            &&& old(order)@.is_prefix_of(final(order)@)
        },
        r matches Err((a, b)) ==> a < g.len() && b < g.len() && has_edge(graph_view(g), a as int, b as int)
            && reaches(graph_view(g), b as int, a as int),
    decreases budget,
{
    let ghost gv = graph_view(g);
    let ghost m0 = marks@;
    let ghost o0 = order@;
    marks[v] = Mark::InProgress;
    proof {
        lemma_leave_unvisited(m0, v as int, Mark::InProgress);
    }
    let ghost stack2 = stack.push(v as int);
    assert(stack2[stack.len() as int] == v as int);
    assert(stack2.contains(v as int));
    assert forall|u: int| 0 <= u < gv.len() implies (#[trigger] marks@[u] is InProgress <==> stack2.contains(u)) by {
        if u != v {
            if stack.contains(u) {
                let k = choose|k: int| 0 <= k < stack.len() && stack[k] == u;
                assert(stack2[k] == u);
            }
            if stack2.contains(u) {
                let k = choose|k: int| 0 <= k < stack2.len() && stack2[k] == u;
                assert(stack[k] == u);
            }
        }
    };
    assert forall|k: int| 0 <= k < stack2.len() - 1 implies has_edge(gv, #[trigger] stack2[k], stack2[k + 1]) by {
        if k < stack.len() - 1 {
            assert(has_edge(gv, stack[k], stack[k + 1]));
        }
    };
    let succ = &g[v];
    assert(gv[v as int] == succ@.map_values(|w: usize| w as int));
    assert forall|jj: int| 0 <= jj < succ.len() implies #[trigger] succ@[jj] < gv.len() by {
        assert(gv[v as int][jj] == succ@[jj] as int);
    };
    let mut j: usize = 0;
    while j < succ.len()
        invariant
            gv == graph_view(g),
            v < g.len(),
            succ == &g@[v as int],
            j <= succ.len(),
            stack2 == stack.push(v as int),
            walk_inv(gv, marks@, order@, stack2),
            marks@[v as int] is InProgress,
            advances(m0, marks@),
            o0.is_prefix_of(order@),
            unvisited_count(marks@) < unvisited_count(m0),
            unvisited_count(m0) <= budget,
            forall|jj: int| 0 <= jj < succ.len() ==> #[trigger] succ@[jj] < gv.len(),
            forall|jj: int| 0 <= jj < j ==> (#[trigger] marks@[succ@[jj] as int]) is Done,
        decreases succ.len() - j,
    {
        let w = succ[j];
        assert(gv[v as int][j as int] == w as int);
        assert(has_edge(gv, v as int, w as int));
        match marks[w] {
            Mark::Unvisited => {
                let ghost m1 = marks@;
                let ghost o1 = order@;
                let r = visit(g, w, marks, order, Ghost(stack2), Ghost(unvisited_count(m1)));
                if r.is_err() {
                    return r;
                }
                assert(marks@[w as int] is Done);
                proof {
                    lemma_advance_count(m1, marks@);
                    lemma_advances_trans(m0, m1, marks@);
                    lemma_prefix_trans(o0, o1, order@);
                    assert(succ@[j as int] == w);
                    assert forall|jj: int| 0 <= jj <= j implies (#[trigger] marks@[succ@[jj] as int]) is Done by {
                        if jj < j {
                            assert(m1[succ@[jj] as int] is Done);
                        }
                    };
                }
            },
            Mark::InProgress => {
                proof {
                    lemma_stack_closes(gv, stack2, w as int);
                }
                return Err((v, w));
            },
            Mark::Done(_) => {},
        }
        j += 1;
    }
    let ghost m2 = marks@;
    let k = order.len();
    marks[v] = Mark::Done(k);
    order.push(v);
    proof {
        let m3 = marks@;
        assert(!stack.contains(v as int));
        assert forall|u: int| 0 <= u < gv.len() implies (#[trigger] m3[u] is InProgress <==> stack.contains(u)) by {
            if u != v {
                if stack.contains(u) {
                    let i = choose|i: int| 0 <= i < stack.len() && stack[i] == u;
                    assert(stack2[i] == u);
                }
                if stack2.contains(u) {
                    let i = choose|i: int| 0 <= i < stack2.len() && stack2[i] == u;
                    assert(i < stack.len());
                    assert(stack[i] == u);
                }
                assert(m3[u] == m2[u]);
            }
        };
        assert forall|i: int| 0 <= i < stack.len() - 1 implies has_edge(gv, #[trigger] stack[i], stack[i + 1]) by {
            assert(stack[i] == stack2[i]);
            assert(stack[i + 1] == stack2[i + 1]);
        };
        assert forall|i: int| 0 <= i < stack.len() implies 0 <= #[trigger] stack[i] < gv.len() by {
            assert(stack[i] == stack2[i]);
        };
        assert forall|i: int| 0 <= i < order@.len() implies #[trigger] order@[i] < gv.len() && m3[order@[i] as int] is Done
            && m3[order@[i] as int]->0 == i by {
            if i < k {
                assert(m2[order@[i] as int] is Done && m2[order@[i] as int]->0 == i);
            }
        };
        assert forall|u: int, jj: int|
            0 <= u < gv.len() && m3[u] is Done && 0 <= jj < gv[u].len() implies (#[trigger] m3[gv[u][jj]]) is Done
            && m3[gv[u][jj]]->0 < m3[u]->0 by {
            if u == v {
                assert(gv[u][jj] == succ@[jj] as int);
                assert(m2[succ@[jj] as int] is Done);
            } else {
                assert(m2[gv[u][jj]] is Done);
            }
        };
        assert(o0.is_prefix_of(order@)) by {
            assert forall|i: int| 0 <= i < o0.len() implies o0[i] == order@[i] by {};
        };
    }
    Ok(())
}

/// A walk of two or more fields that ends where it started is a cycle: no ranking of the
/// graph exists.
pub proof fn lemma_closed_path_is_cyclic(g: Seq<Seq<int>>, p: Seq<int>)
    requires
        edges_in_range(g),
        is_path(g, p),
        p.len() >= 2,
        0 <= p[0] < g.len(),
        p[0] == p.last(),
    ensures
        !acyclic(g),
{
    if acyclic(g) {
        let rank = choose|rank: Seq<nat>| ranked(g, rank);
        lemma_path_rank(g, rank, p);
    }
}

/// Orders the fields of a reference graph so that each comes after every field it refers
/// to, walking depth-first with three marks so that a field reached twice without a cycle
/// (a diamond) is no error.
///
/// Fails with an edge `(a, b)` from which `a` is reached back: a cycle.
pub fn topological_order(g: &Vec<Vec<usize>>) -> (r: Result<(Vec<usize>, Vec<usize>), (usize, usize)>)
    requires
        edges_in_range(graph_view(g)),
    ensures
        r matches Ok((order, pos)) ==> is_topological(graph_view(g), order@, pos@),
        r matches Err((a, b)) ==> a < g.len() && b < g.len() && has_edge(graph_view(g), a as int, b as int)
            && reaches(graph_view(g), b as int, a as int),
        r is Ok <==> acyclic(graph_view(g)),
{
    let ghost gv = graph_view(g);
    let n = g.len();
    let mut marks: Vec<Mark> = Vec::new();
    let mut u: usize = 0;
    while u < n
        invariant
            u <= n,
            marks@.len() == u,
            forall|i: int| 0 <= i < u ==> #[trigger] marks@[i] is Unvisited,
        decreases n - u,
    {
        marks.push(Mark::Unvisited);
        u += 1;
    }
    let mut order: Vec<usize> = Vec::new();
    let mut v: usize = 0;
    while v < n
        invariant
            gv == graph_view(g),
            n == g.len(),
            v <= n,
            walk_inv(gv, marks@, order@, Seq::empty()),
            forall|i: int| 0 <= i < v ==> (#[trigger] marks@[i]) is Done,
        decreases n - v,
    {
        match marks[v] {
            Mark::Unvisited => {
                let ghost m1 = marks@;
                let r = visit(
                    g,
                    v,
                    &mut marks,
                    &mut order,
                    Ghost(Seq::empty()),
                    Ghost(unvisited_count(m1)),
                );
                match r {
                    Err(e) => {
                        proof {
                            lemma_closed_chain_is_cyclic(gv, e.0 as int, e.1 as int);
                        }
                        return Err(e);
                    },
                    Ok(()) => {
                        assert forall|i: int| 0 <= i <= v implies (#[trigger] marks@[i]) is Done by {
                            if i < v {
                                assert(m1[i] is Done);
                            }
                        };
                    },
                }
            },
            Mark::InProgress => {
                assert(Seq::<int>::empty().contains(v as int));
            },
            Mark::Done(_) => {},
        }
        v += 1;
    }
    let mut pos: Vec<usize> = Vec::new();
    let mut u: usize = 0;
    while u < n
        invariant
            gv == graph_view(g),
            n == g.len(),
            u <= n,
            walk_inv(gv, marks@, order@, Seq::empty()),
            forall|i: int| 0 <= i < n ==> (#[trigger] marks@[i]) is Done,
            pos@.len() == u,
            forall|i: int| 0 <= i < u ==> marks@[i] == Mark::Done(#[trigger] pos@[i]),
        decreases n - u,
    {
        let k = match marks[u] {
            Mark::Done(k) => k,
            _ => 0,
        };
        pos.push(k);
        u += 1;
    }
    proof {
        assert forall|u: int, j: int| 0 <= u < gv.len() && 0 <= j < gv[u].len() implies #[trigger] pos@[gv[u][j]]
            < pos@[u] by {
            assert(marks@[gv[u][j]] is Done);
            assert(marks@[gv[u][j]] == Mark::Done(pos@[gv[u][j]]));
            assert(marks@[u] == Mark::Done(pos@[u]));
        };
        assert forall|u: int| 0 <= u < gv.len() implies #[trigger] pos@[u] < order@.len() && order@[pos@[u] as int] == u by {
            assert(marks@[u] == Mark::Done(pos@[u]));
        };
        assert forall|k: int| 0 <= k < order@.len() implies #[trigger] order@[k] < gv.len() && pos@[order@[k] as int]
            == k by {
            assert(marks@[order@[k] as int] == Mark::Done(pos@[order@[k] as int]));
        };
        lemma_topological_is_acyclic(gv, order@, pos@);
    }
    Ok((order, pos))
}

} // verus!
