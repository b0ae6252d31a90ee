//! Directed graphs over integer task handles, with certified cycle
//! detection.
//!
//! Tasks are numbered `0..n` and the graph is an adjacency vector. The
//! depth-first search below either returns an ordering of all tasks in
//! which every edge target (a dependency) comes before its source, or the
//! member tasks of an actual cycle, in order. Both outcomes carry their
//! own certificate in the contract, so a caller that receives the cycle
//! error knows the graph truly is cyclic, and one that receives an order
//! knows the graph is a directed acyclic graph.

use vstd::prelude::*;

verus! {

/// Every edge target is a node of the graph.
pub open spec fn wf_adj(adj: Seq<Seq<usize>>) -> bool {
    forall|i: int, k: int|
        0 <= i < adj.len() && 0 <= k < adj[i].len() ==> (adj[i][k] as int) < adj.len()
}

/// There is an edge from `u` to `v`.
pub open spec fn has_edge(adj: Seq<Seq<usize>>, u: int, v: int) -> bool {
    0 <= u < adj.len() && exists|k: int| 0 <= k < adj[u].len() && adj[u][k] == v as usize
}

/// `c` walks distinct nodes along edges and closes back on its first
/// node.
pub open spec fn is_cycle(adj: Seq<Seq<usize>>, c: Seq<usize>) -> bool {
    &&& c.len() > 0
    &&& forall|x: int| 0 <= x < c.len() - 1 ==> has_edge(adj, #[trigger] c[x] as int, c[x + 1] as int)
    &&& has_edge(adj, c[c.len() - 1] as int, c[0] as int)
    &&& forall|x: int, y: int| 0 <= x < y < c.len() ==> c[x] != c[y]
}

/// `order` lists every node exactly once, and every edge target of a node
/// stands somewhere before that node: dependencies come before
/// dependents.
pub open spec fn valid_order(adj: Seq<Seq<usize>>, order: Seq<usize>) -> bool {
    &&& order.len() == adj.len()
    &&& forall|x: int| 0 <= x < order.len() ==> (order[x] as int) < adj.len()
    &&& forall|x: int, y: int| 0 <= x < y < order.len() ==> order[x] != order[y]
    &&& forall|x: int, k: int|
        0 <= x < order.len() && 0 <= k < adj[order[x] as int].len() ==> order.subrange(
            0,
            x,
        ).contains(adj[order[x] as int][k])
}

/// How many entries are unvisited.
pub open spec fn n_white(colors: Seq<u8>) -> nat
    decreases colors.len(),
{
    if colors.len() == 0 {
        0
    } else {
        n_white(colors.drop_last()) + if colors.last() == 0 {
            1nat
        } else {
            0nat
        }
    }
}

/// How many entries are finished.
pub open spec fn n_black(colors: Seq<u8>) -> nat
    decreases colors.len(),
{
    if colors.len() == 0 {
        0
    } else {
        n_black(colors.drop_last()) + if colors.last() == 2 {
            1nat
        } else {
            0nat
        }
    }
}

pub proof fn lemma_count_update(colors: Seq<u8>, i: int, c: u8)
    requires
        0 <= i < colors.len(),
    ensures
        n_white(colors.update(i, c)) + (if colors[i] == 0 {
            1nat
        } else {
            0nat
        }) == n_white(colors) + (if c == 0 {
            1nat
        } else {
            0nat
        }),
        n_black(colors.update(i, c)) + (if colors[i] == 2 {
            1nat
        } else {
            0nat
        }) == n_black(colors) + (if c == 2 {
            1nat
        } else {
            0nat
        }),
    decreases colors.len(),
{
    let s = colors.update(i, c);
    if i == colors.len() - 1 {
        assert(s.drop_last() =~= colors.drop_last());
        assert(s.last() == c);
    } else {
        lemma_count_update(colors.drop_last(), i, c);
        assert(s.drop_last() =~= colors.drop_last().update(i, c));
        assert(s.last() == colors.last());
    }
}

pub proof fn lemma_count_all_white(colors: Seq<u8>)
    requires
        forall|v: int| 0 <= v < colors.len() ==> colors[v] == 0,
    ensures
        n_white(colors) == colors.len(),
        n_black(colors) == 0,
    decreases colors.len(),
{
    if colors.len() > 0 {
        lemma_count_all_white(colors.drop_last());
    }
}

pub proof fn lemma_count_all_black(colors: Seq<u8>)
    requires
        forall|v: int| 0 <= v < colors.len() ==> colors[v] == 2,
    ensures
        n_black(colors) == colors.len(),
    decreases colors.len(),
{
    if colors.len() > 0 {
        lemma_count_all_black(colors.drop_last());
    }
}

pub proof fn lemma_count_pointwise(c1: Seq<u8>, c2: Seq<u8>)
    requires
        c1.len() == c2.len(),
        forall|v: int| 0 <= v < c1.len() && c2[v] == 0 ==> c1[v] == 0,
    ensures
        n_white(c2) <= n_white(c1),
    decreases c1.len(),
{
    if c1.len() > 0 {
        lemma_count_pointwise(c1.drop_last(), c2.drop_last());
        assert(forall|v: int|
            0 <= v < c1.len() - 1 ==> c1.drop_last()[v] == c1[v] && c2.drop_last()[v] == c2[v]);
    }
}

/// The depth-first invariant: `path` is the gray stack, root to current,
/// walking along edges; `order` lists exactly the finished nodes, each
/// with all its edge targets before it.
pub open spec fn dfs_inv(
    adj: Seq<Seq<usize>>,
    colors: Seq<u8>,
    path: Seq<usize>,
    order: Seq<usize>,
) -> bool {
    &&& colors.len() == adj.len()
    &&& forall|v: int| 0 <= v < colors.len() ==> colors[v] <= 2
    &&& forall|x: int|
        0 <= x < path.len() ==> (path[x] as int) < adj.len() && colors[path[x] as int] == 1
    &&& forall|v: int| 0 <= v < colors.len() && colors[v] == 1 ==> path.contains(v as usize)
    &&& forall|x: int|
        0 <= x < path.len() - 1 ==> has_edge(adj, #[trigger] path[x] as int, path[x + 1] as int)
    &&& forall|x: int, y: int| 0 <= x < y < path.len() ==> path[x] != path[y]
    &&& forall|x: int|
        0 <= x < order.len() ==> (order[x] as int) < adj.len() && colors[order[x] as int] == 2
    &&& forall|v: int| 0 <= v < colors.len() && colors[v] == 2 ==> order.contains(v as usize)
    &&& forall|x: int, y: int| 0 <= x < y < order.len() ==> order[x] != order[y]
    &&& forall|x: int, k: int|
        0 <= x < order.len() && 0 <= k < adj[order[x] as int].len() ==> order.subrange(
            0,
            x,
        ).contains(adj[order[x] as int][k])
    &&& order.len() == n_black(colors)
}

proof fn lemma_adj_index(adj: &Vec<Vec<usize>>, i: int)
    requires
        0 <= i < adj@.len(),
    ensures
        adj.deep_view().len() == adj@.len(),
        adj.deep_view()[i] =~= adj@[i]@,
{
    assert(adj.deep_view()[i] == adj@[i].deep_view());
    assert forall|k: int| 0 <= k < adj@[i]@.len() implies adj@[i].deep_view()[k] == adj@[i]@[k] by {
        assert(adj@[i].deep_view()[k] == adj@[i]@[k].deep_view());
    }
}

/// The suffix of the gray stack from the first occurrence of `w`; with
/// the closing edge from the stack's top back to `w` it is a cycle.
fn extract_cycle(path: &Vec<usize>, w: usize, Ghost(av): Ghost<Seq<Seq<usize>>>) -> (c: Vec<
    usize,
>)
    requires
        path@.contains(w),
        forall|x: int| 0 <= x < path@.len() ==> (path@[x] as int) < av.len(),
        forall|x: int|
            0 <= x < path@.len() - 1 ==> has_edge(
                av,
                #[trigger] path@[x] as int,
                path@[x + 1] as int,
            ),
        forall|x: int, y: int| 0 <= x < y < path@.len() ==> path@[x] != path@[y],
        has_edge(av, path@[path@.len() - 1] as int, w as int),
    ensures
        is_cycle(av, c@),
{
    let plen: usize = path.len();
    let mut x: usize = 0;
    while path[x] != w
        invariant
            0 <= x < path@.len(),
            plen == path@.len(),
            path@.contains(w),
            forall|y: int| 0 <= y < x ==> path@[y] != w,
        decreases path@.len() - x,
    {
        x = x + 1;
        proof {
            let y = choose|y: int| 0 <= y < path@.len() && path@[y] == w;
            assert(y >= x);
        }
    }
    let mut cyc: Vec<usize> = Vec::new();
    let mut y: usize = x;
    while y < path.len()
        invariant
            x <= y <= path@.len(),
            x < path@.len(),
            path@[x as int] == w,
            cyc@ =~= path@.subrange(x as int, y as int),
        decreases path@.len() - y,
    {
        cyc.push(path[y]);
        proof {
            assert(cyc@ =~= path@.subrange(x as int, y + 1 as int));
        }
        y = y + 1;
    }
    proof {
        assert(cyc@ =~= path@.subrange(x as int, path@.len() as int));
        assert(cyc@[0] == w);
        assert(cyc@[cyc@.len() - 1] == path@[path@.len() - 1]);
        assert forall|z: int|
            0 <= z < cyc@.len() - 1 implies has_edge(
            av,
            #[trigger] cyc@[z] as int,
            cyc@[z + 1] as int,
        ) by {
            assert(cyc@[z] == path@[x + z]);
            assert(cyc@[z + 1] == path@[x + z + 1]);
        }
        assert(has_edge(av, cyc@[cyc@.len() - 1] as int, cyc@[0] as int));
    }
    cyc
}

/// One depth-first visit from the unvisited node `u`: marks `u` and
/// everything reachable from it finished, or returns a cycle.
#[verifier::rlimit(100)]
fn visit(
    adj: &Vec<Vec<usize>>,
    u: usize,
    colors: &mut Vec<u8>,
    path: &mut Vec<usize>,
    order: &mut Vec<usize>,
) -> (r: Result<(), Vec<usize>>)
    requires
        wf_adj(adj.deep_view()),
        (u as int) < adj@.len(),
        dfs_inv(adj.deep_view(), old(colors)@, old(path)@, old(order)@),
        old(colors)@[u as int] == 0,
        old(path)@.len() > 0 ==> has_edge(
            adj.deep_view(),
            old(path)@[old(path)@.len() - 1] as int,
            u as int,
        ),
    ensures
        match r {
            Ok(_) => {
                &&& dfs_inv(adj.deep_view(), final(colors)@, final(path)@, final(order)@)
                &&& final(path)@ == old(path)@
                &&& final(colors)@.len() == old(colors)@.len()
                &&& final(colors)@[u as int] == 2
                &&& forall|v: int|
                    0 <= v < old(colors)@.len() && old(colors)@[v] != 0 ==> final(colors)@[v]
                        == old(colors)@[v]
                &&& n_white(final(colors)@) <= n_white(old(colors)@)
                &&& forall|x: int| 0 <= x < old(order)@.len() ==> final(order)@[x] == old(order)@[x]
                &&& old(order)@.len() <= final(order)@.len()
            },
            Err(c) => is_cycle(adj.deep_view(), c@),
        },
    decreases n_white(colors@),
{
    let ghost av = adj.deep_view();
    let ghost c0 = colors@;
    let ghost p0 = path@;
    let ghost o0 = order@;
    let n_nodes: usize = colors.len();
    proof {
        assert(n_nodes == colors@.len());
    }
    colors[u] = 1;
    path.push(u);
    let ghost c1 = colors@;
    let ghost p1 = path@;
    proof {
        lemma_count_update(c0, u as int, 1);
        assert(c1 == c0.update(u as int, 1u8));
        assert(n_white(c1) + 1 == n_white(c0));
        assert(n_black(c1) == n_black(c0));
        // u was white, so it was on neither the path nor the order.
        assert(forall|x: int| 0 <= x < p0.len() ==> p0[x] != u);
        assert(forall|x: int| 0 <= x < o0.len() ==> o0[x] != u);
        assert forall|v: int| 0 <= v < c1.len() && c1[v] == 1 implies p1.contains(v as usize) by {
            if v == u as int {
                assert(p1[p1.len() - 1] == u);
            } else {
                assert(c0[v] == 1);
                let x = choose|x: int| 0 <= x < p0.len() && p0[x] == v as usize;
                assert(p1[x] == v as usize);
            }
        }
        assert forall|v: int| 0 <= v < c1.len() && c1[v] == 2 implies o0.contains(v as usize) by {
            assert(c0[v] == 2);
        }
        assert(dfs_inv(av, c1, p1, o0));
    }
    let row_len = adj[u].len();
    let mut k: usize = 0;
    while k < row_len
        invariant
            wf_adj(adj.deep_view()),
            av == adj.deep_view(),
            (u as int) < adj@.len(),
            adj.deep_view().len() == adj@.len(),
            row_len == adj.deep_view()[u as int].len(),
            dfs_inv(adj.deep_view(), colors@, path@, order@),
            colors@.len() == c0.len(),
            colors@[u as int] == 1,
            path@ == p1,
            p1 == p0.push(u),
            forall|v: int| 0 <= v < c0.len() && c1[v] != 0 ==> colors@[v] == c1[v],
            n_white(colors@) <= n_white(c1),
            n_white(c1) + 1 == n_white(c0),
            c1 == c0.update(u as int, 1u8),
            c0 == old(colors)@,
            forall|x: int| 0 <= x < o0.len() ==> order@[x] == o0[x],
            o0.len() <= order@.len(),
            forall|kk: int|
                0 <= kk < k ==> colors@[adj.deep_view()[u as int][kk] as int] == 2,
        decreases row_len - k,
    {
        proof {
            lemma_adj_index(adj, u as int);
        }
        let row = &adj[u];
        let w: usize = row[k];
        proof {
            assert(w == adj.deep_view()[u as int][k as int]);
            assert((w as int) < adj@.len());
            assert((k as int) < av[u as int].len());
            assert(av[u as int][k as int] == w);
            assert(has_edge(av, u as int, w as int));
        }
        let cw: u8 = colors[w];
        if cw == 1 {
            // `w` is on the gray stack: the stack from its first
            // occurrence through `u`, closed by the edge back to `w`,
            // is a cycle.
            proof {
                assert(path@[path@.len() - 1] == u);
                assert(colors@[w as int] == 1);
                assert(path@.contains(w));
                assert((k as int) < av[u as int].len());
                assert(av[u as int][k as int] == w);
                assert(has_edge(av, u as int, w as int));
            }
            let cyc = extract_cycle(path, w, Ghost(av));
            return Err(cyc);
        } else if cw == 0 {
            let ghost cb = colors@;
            let ghost ob = order@;
            proof {
                assert(path@[path@.len() - 1] == u);
                assert(has_edge(av, path@[path@.len() - 1] as int, w as int));
            }
            match visit(adj, w, colors, path, order) {
                Ok(_) => {
                    proof {
                        lemma_count_pointwise(c1, colors@);
                        assert forall|v: int|
                            0 <= v < c0.len() && c1[v] != 0 implies colors@[v] == c1[v] by {
                            assert(cb[v] == c1[v]);
                        }
                        assert forall|kk: int|
                            0 <= kk < k + 1 implies colors@[adj.deep_view()[u as int][kk] as int]
                            == 2 by {
                            if kk < k {
                                assert(cb[adj.deep_view()[u as int][kk] as int] == 2);
                            } else {
                                assert(colors@[w as int] == 2);
                            }
                        }
                        assert forall|z: int| 0 <= z < o0.len() implies order@[z] == o0[z] by {
                            assert(ob[z] == o0[z]);
                        }
                    }
                },
                Err(c) => {
                    return Err(c);
                },
            }
        } else {
            proof {
                assert(cw == 2);
            }
        }
        k = k + 1;
    }
    // Every successor is finished: finish `u` as well.
    let ghost c2 = colors@;
    let ghost o2 = order@;
    let _ = path.pop();
    colors[u] = 2;
    order.push(u);
    let ghost c3 = colors@;
    let ghost p3 = path@;
    let ghost o3 = order@;
    proof {
        assert(p3 =~= p0);
        lemma_count_update(c2, u as int, 2);
        assert(n_white(c3) == n_white(c2));
        assert(n_black(c3) == n_black(c2) + 1);
        // u was gray, so it is in no position of the order yet.
        assert forall|x: int| 0 <= x < o2.len() implies o2[x] != u by {
            assert(c2[o2[x] as int] == 2);
        }
        assert(p1[p1.len() - 1] == u);
        assert forall|v: int| 0 <= v < c3.len() && c3[v] == 1 implies p3.contains(v as usize) by {
            assert(c2[v] == 1 && v != u as int);
            let x = choose|x: int| 0 <= x < p1.len() && p1[x] == v as usize;
            assert(p1[x] != p1[p1.len() - 1]);
            assert(x < p1.len() - 1);
            assert(p3[x] == v as usize);
        }
        assert forall|v: int| 0 <= v < c3.len() && c3[v] == 2 implies o3.contains(v as usize) by {
            if v == u as int {
                assert(o3[o3.len() - 1] == u);
            } else {
                assert(c2[v] == 2);
                let x = choose|x: int| 0 <= x < o2.len() && o2[x] == v as usize;
                assert(o3[x] == v as usize);
            }
        }
        assert forall|x: int, k2: int|
            0 <= x < o3.len() && 0 <= k2 < av[o3[x] as int].len() implies o3.subrange(
            0,
            x,
        ).contains(av[o3[x] as int][k2]) by {
            if x < o2.len() {
                assert(o3[x] == o2[x]);
                assert(o2.subrange(0, x).contains(av[o2[x] as int][k2]));
                let z = choose|z: int| 0 <= z < x && o2[z] == av[o2[x] as int][k2];
                assert(o3.subrange(0, x)[z] == o2[z]);
            } else {
                assert(o3[x] == u);
                let t = av[u as int][k2];
                assert(c2[t as int] == 2);
                assert(o2.contains(t));
                let z = choose|z: int| 0 <= z < o2.len() && o2[z] == t;
                assert(o3.subrange(0, x)[z] == t);
            }
        }
        assert(dfs_inv(av, c3, p3, o3));
        assert forall|v: int| 0 <= v < c0.len() && c0[v] != 0 implies c3[v] == c0[v] by {
            assert(v != u as int);
            assert(c1[v] == c0[v]);
            assert(c2[v] == c1[v]);
        }
        assert forall|v: int| 0 <= v < c0.len() && c3[v] == 0 implies c0[v] == 0 by {
            assert(v != u as int);
            assert(c2[v] == 0);
            if c0[v] != 0 {
                assert(c1[v] == c0[v]);
            }
        }
        lemma_count_pointwise(c0, c3);
    }
    Ok(())
}

/// Either an ordering of all tasks with every dependency before its
/// dependents, or the member tasks of a dependency cycle, in walk order.
pub fn topo_order(adj: &Vec<Vec<usize>>) -> (r: Result<Vec<usize>, Vec<usize>>)
    requires
        wf_adj(adj.deep_view()),
    ensures
        match r {
            Ok(order) => valid_order(adj.deep_view(), order@),
            Err(cycle) => is_cycle(adj.deep_view(), cycle@),
        },
{
    let ghost av = adj.deep_view();
    let n = adj.len();
    proof {
        assert(av.len() == adj@.len());
    }
    let mut colors: Vec<u8> = Vec::new();
    let mut i: usize = 0;
    while i < n
        invariant
            colors@.len() == i,
            i <= n,
            forall|v: int| 0 <= v < i ==> colors@[v] == 0,
        decreases n - i,
    {
        colors.push(0);
        i = i + 1;
    }
    let mut path: Vec<usize> = Vec::new();
    let mut order: Vec<usize> = Vec::new();
    proof {
        lemma_count_all_white(colors@);
        assert(dfs_inv(av, colors@, path@, order@));
    }
    let mut u: usize = 0;
    while u < n
        invariant
            wf_adj(av),
            av == adj.deep_view(),
            av.len() == adj@.len(),
            n == adj@.len(),
            u <= n,
            colors@.len() == n,
            path@.len() == 0,
            dfs_inv(av, colors@, path@, order@),
            forall|v: int| 0 <= v < u ==> colors@[v] == 2,
        decreases n - u,
    {
        let cu: u8 = colors[u];
        if cu == 0 {
            let ghost cb = colors@;
            match visit(adj, u, &mut colors, &mut path, &mut order) {
                Ok(_) => {
                    proof {
                        assert forall|v: int| 0 <= v < u + 1 implies colors@[v] == 2 by {
                            if v < u {
                                assert(cb[v] == 2);
                            }
                        }
                    }
                },
                Err(c) => {
                    return Err(c);
                },
            }
        } else {
            proof {
                if cu == 1 {
                    assert(path@.contains(u));
                    let x = choose|x: int| 0 <= x < path@.len() && path@[x] == u;
                    assert(false);
                }
                assert(cu == 2);
            }
        }
        u = u + 1;
    }
    proof {
        lemma_count_all_black(colors@);
        assert(order@.len() == n);
        assert(valid_order(av, order@));
    }
    Ok(order)
}

} // verus!
