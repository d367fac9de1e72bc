//! Finding a cycle in a small directed graph given by adjacency lists.

use vstd::prelude::*;

verus! {

/// The successor lists of an adjacency vector.
pub open spec fn adjacency_rows(adj: Seq<Vec<usize>>) -> Seq<Seq<usize>> {
    adj.map_values(|l: Vec<usize>| l@)
}

/// Every successor in the adjacency lists is a node of the graph.
pub open spec fn adjacency_ok(adj: Seq<Seq<usize>>) -> bool {
    forall|u: int, k: int|
        0 <= u < adj.len() && 0 <= k < adj[u].len() ==> (#[trigger] adj[u][k]) < adj.len()
}

/// Whether there is an edge from `u` to `v`.
pub open spec fn has_edge(adj: Seq<Seq<usize>>, u: int, v: int) -> bool {
    0 <= u < adj.len() && adj[u].contains(v as usize)
}

/// A walk that follows edges: each node is followed by one of its successors.
pub open spec fn is_walk(adj: Seq<Seq<usize>>, w: Seq<usize>) -> bool {
    &&& forall|i: int| 0 <= i < w.len() ==> (#[trigger] w[i]) < adj.len()
    &&& forall|i: int| 0 <= i < w.len() - 1 ==> has_edge(adj, #[trigger] w[i] as int, w[i + 1] as int)
}

/// A closed walk: it has at least one edge and ends where it starts.
pub open spec fn is_cycle(adj: Seq<Seq<usize>>, c: Seq<usize>) -> bool {
    &&& c.len() >= 2
    &&& c[0] == c.last()
    &&& is_walk(adj, c)
}

/// A cycle that passes through each of its nodes once.
pub open spec fn is_simple_cycle(adj: Seq<Seq<usize>>, c: Seq<usize>) -> bool {
    is_cycle(adj, c) && c.drop_last().no_duplicates()
}

/// Whether the graph has a cycle.
pub open spec fn has_cycle(adj: Seq<Seq<usize>>) -> bool {
    exists|c: Seq<usize>| is_cycle(adj, c)
}

// Search states: 0 unvisited, 1 on the current path, 2 finished.

/// The number of unvisited nodes.
pub open spec fn unvisited(s: Seq<u8>) -> nat
    decreases s.len(),
{
    if s.len() == 0 {
        0
    } else {
        unvisited(s.drop_last()) + if s.last() == 0 {
            1nat
        } else {
            0nat
        }
    }
}

proof fn lemma_unvisited_le(a: Seq<u8>, b: Seq<u8>)
    requires
        a.len() == b.len(),
        forall|i: int| 0 <= i < a.len() && #[trigger] b[i] == 0 ==> a[i] == 0,
    ensures
        unvisited(b) <= unvisited(a),
    decreases a.len(),
{
    if a.len() > 0 {
        assert forall|i: int| 0 <= i < a.drop_last().len() && #[trigger] b.drop_last()[i]
            == 0 implies a.drop_last()[i] == 0 by {
            assert(b.drop_last()[i] == b[i]);
        }
        lemma_unvisited_le(a.drop_last(), b.drop_last());
    }
}

/// Marking an unvisited node lowers the number of unvisited nodes.
pub proof fn lemma_unvisited_update(s: Seq<u8>, i: int, v: u8)
    requires
        0 <= i < s.len(),
        s[i] == 0,
        v != 0,
    ensures
        unvisited(s.update(i, v)) < unvisited(s),
    decreases s.len(),
{
    let t = s.update(i, v);
    if i == s.len() - 1 {
        assert(t.drop_last() == s.drop_last());
    } else {
        assert(t.drop_last() == s.drop_last().update(i, v));
        lemma_unvisited_update(s.drop_last(), i, v);
    }
}

/// Depth-first search from the unvisited node `node`, with search states `s`
/// and the current path `path`: the cycle closed by the first edge back into
/// the path, if there is one, and the search states afterwards.
#[verifier::opaque]
pub open spec fn dfs_visit(adj: Seq<Seq<usize>>, node: int, s: Seq<u8>, path: Seq<usize>) -> (
    Option<Seq<usize>>,
    Seq<u8>,
)
    decreases unvisited(s), 0int, 0int,
{
    if 0 <= node < s.len() && node < adj.len() && s[node] == 0 {
        proof {
            lemma_unvisited_update(s, node, 1);
        }
        dfs_successors(adj, node, 0, s.update(node, 1), path.push(node as usize))
    } else {
        (None, s)
    }
}

/// The rest of the search from `node` once its first `i` successors are
/// done: each successor on the path closes a cycle, each unvisited one is
/// searched in turn; with all done, `node` is finished.
#[verifier::opaque]
pub open spec fn dfs_successors(adj: Seq<Seq<usize>>, node: int, i: int, s: Seq<u8>, path: Seq<usize>) -> (
    Option<Seq<usize>>,
    Seq<u8>,
)
    decreases unvisited(s), 1int, adj[node].len() - i,
{
    if !(0 <= node < adj.len()) || i < 0 || i >= adj[node].len() {
        (None, s.update(node, 2))
    } else {
        let next = adj[node][i];
        if (next as int) < s.len() && s[next as int] == 1 {
            match path.index_of_first(next) {
                Some(j) => (Some(path.skip(j).push(next)), s),
                None => (None, s),
            }
        } else if (next as int) < s.len() && s[next as int] == 0 {
            let (r, t) = dfs_visit(adj, next as int, s, path);
            if r is Some {
                (r, t)
            } else if unvisited(t) <= unvisited(s) {
                dfs_successors(adj, node, i + 1, t, path)
            } else {
                (None, t)
            }
        } else {
            dfs_successors(adj, node, i + 1, s, path)
        }
    }
}

/// The search over all nodes from `node` on, in order, starting each
/// unvisited one with an empty path: the first cycle it closes.
pub open spec fn dfs_from(adj: Seq<Seq<usize>>, node: int, s: Seq<u8>) -> Option<Seq<usize>>
    decreases adj.len() - node,
{
    if node < 0 || node >= adj.len() {
        None
    } else if node < s.len() && s[node] == 0 {
        let (r, t) = dfs_visit(adj, node, s, Seq::empty());
        if r is Some {
            r
        } else {
            dfs_from(adj, node + 1, t)
        }
    } else {
        dfs_from(adj, node + 1, s)
    }
}

/// The cycle that depth-first search finds first, when it starts from each
/// node in increasing order and follows successors in list order.
pub open spec fn dfs_cycle(adj: Seq<Seq<usize>>) -> Option<Seq<usize>> {
    dfs_from(adj, 0, Seq::new(adj.len(), |i: int| 0u8))
}

/// Searching from an unvisited node puts it on the path and goes through its
/// successors.
pub proof fn lemma_dfs_visit(adj: Seq<Seq<usize>>, node: int, s: Seq<u8>, path: Seq<usize>)
    requires
        0 <= node < s.len(),
        node < adj.len(),
        s[node] == 0,
    ensures
        dfs_visit(adj, node, s, path) == dfs_successors(adj, node, 0, s.update(node, 1), path.push(
            node as usize,
        )),
{
    reveal_with_fuel(dfs_visit, 1);
    reveal_with_fuel(dfs_successors, 1);
}

/// With all successors done, the node is finished and no cycle was found.
pub proof fn lemma_dfs_done(adj: Seq<Seq<usize>>, node: int, i: int, s: Seq<u8>, path: Seq<usize>)
    requires
        0 <= node < adj.len(),
        i == adj[node].len(),
    ensures
        dfs_successors(adj, node, i, s, path) == (None::<Seq<usize>>, s.update(node, 2)),
{
    reveal_with_fuel(dfs_successors, 1);
    reveal_with_fuel(dfs_visit, 1);
}

/// A successor on the path closes the cycle from its place on the path.
pub proof fn lemma_dfs_back(adj: Seq<Seq<usize>>, node: int, i: int, s: Seq<u8>, path: Seq<usize>)
    requires
        0 <= node < adj.len(),
        0 <= i < adj[node].len(),
        adj[node][i] < s.len(),
        s[adj[node][i] as int] == 1,
    ensures
        dfs_successors(adj, node, i, s, path) == (match path.index_of_first(adj[node][i]) {
            Some(j) => (Some(path.skip(j).push(adj[node][i])), s),
            None => (None, s),
        }),
{
    reveal_with_fuel(dfs_successors, 1);
    reveal_with_fuel(dfs_visit, 1);
}

/// An unvisited successor is searched; if that closes no cycle, the search
/// goes on with the next successor.
pub proof fn lemma_dfs_descend(adj: Seq<Seq<usize>>, node: int, i: int, s: Seq<u8>, path: Seq<usize>)
    requires
        0 <= node < adj.len(),
        0 <= i < adj[node].len(),
        adj[node][i] < s.len(),
        s[adj[node][i] as int] == 0,
    ensures
        ({
            let (r, t) = dfs_visit(adj, adj[node][i] as int, s, path);
            dfs_successors(adj, node, i, s, path) == if r is Some {
                (r, t)
            } else if unvisited(t) <= unvisited(s) {
                dfs_successors(adj, node, i + 1, t, path)
            } else {
                (None, t)
            }
        }),
{
    reveal_with_fuel(dfs_successors, 1);
    reveal_with_fuel(dfs_visit, 1);
}

/// A finished successor is passed over.
pub proof fn lemma_dfs_skip(adj: Seq<Seq<usize>>, node: int, i: int, s: Seq<u8>, path: Seq<usize>)
    requires
        0 <= node < adj.len(),
        0 <= i < adj[node].len(),
        adj[node][i] < s.len(),
        s[adj[node][i] as int] == 2,
    ensures
        dfs_successors(adj, node, i, s, path) == dfs_successors(adj, node, i + 1, s, path),
{
    reveal_with_fuel(dfs_successors, 1);
    reveal_with_fuel(dfs_visit, 1);
}

/// Finished nodes have only finished successors.
pub open spec fn finished_closed(adj: Seq<Seq<usize>>, s: Seq<u8>) -> bool {
    forall|u: int, k: int|
        0 <= u < adj.len() && s[u] == 2 && 0 <= k < adj[u].len() ==> s[#[trigger] adj[u][k] as int]
            == 2
}

/// No cycle runs through finished nodes only.
pub open spec fn finished_acyclic(adj: Seq<Seq<usize>>, s: Seq<u8>) -> bool {
    forall|c: Seq<usize>|
        #![trigger is_cycle(adj, c)]
        is_cycle(adj, c) ==> exists|k: int| 0 <= k < c.len() && s[c[k] as int] != 2
}

/// The nodes on the current path are exactly those marked 1; the path is a
/// walk without repeated nodes.
pub open spec fn path_ok(adj: Seq<Seq<usize>>, s: Seq<u8>, stack: Seq<usize>) -> bool {
    &&& is_walk(adj, stack)
    &&& stack.no_duplicates()
    &&& forall|x: int| 0 <= x < s.len() ==> (s[x] == 1 <==> stack.contains(x as usize))
}

/// The shared invariant of the search.
pub open spec fn search_ok(adj: Seq<Seq<usize>>, s: Seq<u8>, stack: Seq<usize>) -> bool {
    &&& adjacency_ok(adj)
    &&& s.len() == adj.len()
    &&& forall|x: int| 0 <= x < s.len() ==> #[trigger] s[x] <= 2
    &&& finished_closed(adj, s)
    &&& finished_acyclic(adj, s)
    &&& path_ok(adj, s, stack)
}

/// Once a walk reaches a finished node it stays among finished nodes.
proof fn lemma_walk_stays_finished(adj: Seq<Seq<usize>>, s: Seq<u8>, w: Seq<usize>, j: int)
    requires
        finished_closed(adj, s),
        is_walk(adj, w),
        0 <= j < w.len(),
        s[w[j] as int] == 2,
    ensures
        forall|k: int| j <= k < w.len() ==> s[#[trigger] w[k] as int] == 2,
    decreases w.len() - j,
{
    if j + 1 < w.len() {
        assert(has_edge(adj, w[j] as int, w[j + 1] as int));
        let k = choose|k: int| 0 <= k < adj[w[j] as int].len() && adj[w[j] as int][k] == w[j + 1];
        assert(s[adj[w[j] as int][k] as int] == 2);
        lemma_walk_stays_finished(adj, s, w, j + 1);
    }
}

/// Finishing `u`, all of whose successors are finished, keeps the finished
/// nodes free of cycles.
proof fn lemma_finish_acyclic(adj: Seq<Seq<usize>>, s: Seq<u8>, u: int)
    requires
        adjacency_ok(adj),
        s.len() == adj.len(),
        0 <= u < adj.len(),
        s[u] != 2,
        finished_closed(adj, s),
        finished_acyclic(adj, s),
        forall|k: int| 0 <= k < adj[u].len() ==> s[#[trigger] adj[u][k] as int] == 2,
    ensures
        finished_acyclic(adj, s.update(u, 2)),
        finished_closed(adj, s.update(u, 2)),
{
    let t = s.update(u, 2);
    assert forall|c: Seq<usize>| #![trigger is_cycle(adj, c)] is_cycle(adj, c) implies exists|k: int|
        0 <= k < c.len() && t[c[k] as int] != 2 by {
        if forall|k: int| 0 <= k < c.len() ==> t[c[k] as int] == 2 {
            if exists|j: int| 0 <= j < c.len() && s[c[j] as int] == 2 {
                let j = choose|j: int| 0 <= j < c.len() && s[c[j] as int] == 2;
                lemma_walk_stays_finished(adj, s, c, j);
                assert(s[c.last() as int] == 2);
                assert(s[c[0] as int] == 2);
                lemma_walk_stays_finished(adj, s, c, 0);
                let e = choose|k: int| 0 <= k < c.len() && s[c[k] as int] != 2;
                assert(false);
            } else {
                assert(t[c[0] as int] == 2);
                assert(c[0] as int == u);
                assert(c[1] as int == u) by {
                    assert(t[c[1] as int] == 2);
                }
                assert(has_edge(adj, c[0] as int, c[1] as int));
                let k = choose|k: int| 0 <= k < adj[u].len() && adj[u][k] == c[1];
                assert(s[adj[u][k] as int] == 2);
            }
        }
    }
    assert forall|v: int, k: int|
        0 <= v < adj.len() && t[v] == 2 && 0 <= k < adj[v].len() implies t[#[trigger] adj[v][k] as int]
        == 2 by {
        if v != u {
            assert(s[adj[v][k] as int] == 2);
        }
    }
}

/// The index of the first `x` in `v`.
fn position_of(v: &Vec<usize>, x: usize) -> (r: Option<usize>)
    ensures
        match r {
            Some(i) => v@.index_of_first(x) == Some(i as int),
            None => v@.index_of_first(x) is None,
        },
{
    let mut i: usize = 0;
    while i < v.len()
        invariant
            i <= v.len(),
            forall|k: int| 0 <= k < i ==> v@[k] != x,
        decreases v.len() - i,
    {
        if v[i] == x {
            proof {
                v@.index_of_first_ensures(x);
            }
            return Some(i);
        }
        i = i + 1;
    }
    proof {
        v@.index_of_first_ensures(x);
    }
    None
}

/// The cycle closed by an edge from the end of the current path back to the
/// path node at `start`.
fn close_cycle(stack: &Vec<usize>, start: usize, next: usize) -> (c: Vec<usize>)
    requires
        start < stack.len(),
        stack@[start as int] == next,
    ensures
        c@ == stack@.skip(start as int).push(next),
{
    let mut c: Vec<usize> = Vec::new();
    let mut i = start;
    while i < stack.len()
        invariant
            start <= i <= stack.len(),
            c@ == stack@.subrange(start as int, i as int),
        decreases stack.len() - i,
    {
        c.push(stack[i]);
        assert(stack@.subrange(start as int, i + 1) == stack@.subrange(start as int, i as int).push(
            stack@[i as int],
        ));
        i = i + 1;
    }
    assert(stack@.subrange(start as int, stack.len() as int) == stack@.skip(start as int));
    c.push(next);
    c
}

/// Depth-first search from `node`: marks what it finishes, and stops at the
/// first edge back into the current path.
fn visit(node: usize, adjacency: &Vec<Vec<usize>>, state: &mut Vec<u8>, stack: &mut Vec<usize>) -> (r:
    Option<Vec<usize>>)
    requires
        search_ok(adjacency_rows(adjacency@), old(state)@, old(stack)@),
        node < old(state)@.len(),
        old(state)@[node as int] == 0,
        old(stack)@.len() > 0 ==> has_edge(
            adjacency_rows(adjacency@),
            old(stack)@.last() as int,
            node as int,
        ),
    ensures
        match r {
            Some(c) => is_simple_cycle(adjacency_rows(adjacency@), c@) && dfs_visit(
                adjacency_rows(adjacency@),
                node as int,
                old(state)@,
                old(stack)@,
            ).0 == Some(c@),
            None => {
                &&& dfs_visit(adjacency_rows(adjacency@), node as int, old(state)@, old(stack)@)
                    == (None::<Seq<usize>>, final(state)@)
                &&& search_ok(adjacency_rows(adjacency@), final(state)@, final(stack)@)
                &&& final(stack)@ == old(stack)@
                &&& final(state)@[node as int] == 2
                &&& final(state)@.len() == old(state)@.len()
                &&& forall|x: int|
                    0 <= x < old(state)@.len() && old(state)@[x] != 0 ==> #[trigger] final(state)@[x]
                        == old(state)@[x]
                &&& forall|x: int|
                    0 <= x < old(state)@.len() && old(state)@[x] == 0 ==> #[trigger] final(state)@[x]
                        != 1
            },
        },
    decreases unvisited(state@),
{
    let ghost adj = adjacency_rows(adjacency@);
    let ghost s0 = state@;
    let ghost k0 = stack@;
    state.set(node, 1);
    stack.push(node);
    proof {
        lemma_unvisited_update(s0, node as int, 1);
        assert(state@.len() == state.len());
        assert(state@ == s0.update(node as int, 1));
        assert(stack@ == k0.push(node));
        assert(!k0.contains(node)) by {
            if k0.contains(node) {
                assert(s0[node as int] == 1);
            }
        }
        assert forall|x: int| 0 <= x < state@.len() implies (state@[x] == 1 <==> stack@.contains(
            x as usize,
        )) by {
            if x == node {
                assert(stack@[stack@.len() - 1] == node);
            } else {
                assert(state@[x] == s0[x]);
                assert(path_ok(adj, s0, k0));
                assert(s0[x] == 1 <==> k0.contains(x as usize));
                if s0[x] == 1 {
                    assert(k0.contains(x as usize));
                    let j = choose|j: int| 0 <= j < k0.len() && k0[j] == x as usize;
                    assert(stack@[j] == x as usize);
                }
                if stack@.contains(x as usize) {
                    let j = choose|j: int| 0 <= j < stack@.len() && stack@[j] == x as usize;
                    if j < k0.len() {
                        assert(k0[j] == x as usize);
                        assert(k0.contains(x as usize));
                    } else {
                        assert(stack@[j] == node);
                    }
                }
            }
        }
        assert(!k0.contains(node)) by {
            if k0.contains(node) {
                assert(s0[node as int] == 1);
            }
        }
        assert forall|i: int, j: int| 0 <= i < j < stack@.len() implies stack@[i] != stack@[j] by {
            if j == stack@.len() - 1 {
                assert(stack@[i] == k0[i]);
            } else {
                assert(stack@[i] == k0[i]);
                assert(stack@[j] == k0[j]);
            }
        }
        assert forall|i: int| 0 <= i < stack@.len() - 1 implies has_edge(
            adj,
            #[trigger] stack@[i] as int,
            stack@[i + 1] as int,
        ) by {
            if i < k0.len() - 1 {
                assert(stack@[i] == k0[i]);
                assert(stack@[i + 1] == k0[i + 1]);
            } else {
                assert(stack@[i] == k0.last());
            }
        }
        assert(adj.len() == adjacency@.len());
        lemma_dfs_visit(adj, node as int, s0, k0);
    }
    let succ = &adjacency[node];
    assert(succ@ == adj[node as int]);
    let mut i: usize = 0;
    while i < succ.len()
        invariant
            adj == adjacency_rows(adjacency@),
            s0 == old(state)@,
            k0 == old(stack)@,
            succ@ == adj[node as int],
            i <= succ.len(),
            node < state@.len(),
            search_ok(adj, state@, stack@),
            stack@ == k0.push(node),
            state@[node as int] == 1,
            state@.len() == s0.len(),
            unvisited(state@) < unvisited(s0),
            forall|x: int| 0 <= x < s0.len() && s0[x] != 0 ==> #[trigger] state@[x] == s0[x],
            forall|x: int| 0 <= x < s0.len() && s0[x] == 0 && x != node ==> #[trigger] state@[x] != 1,
            forall|k: int| 0 <= k < i ==> state@[#[trigger] succ@[k] as int] == 2,
            dfs_visit(adj, node as int, s0, k0) == dfs_successors(
                adj,
                node as int,
                i as int,
                state@,
                stack@,
            ),
        decreases succ.len() - i,
    {
        let next = succ[i];
        assert(next < adj.len());
        assert(adj[node as int][i as int] == next);
        if state[next] == 1 {
            let found = position_of(stack, next);
            proof {
                stack@.index_of_first_ensures(next);
                lemma_dfs_back(adj, node as int, i as int, state@, stack@);
            }
            match found {
                Some(start) => {
                    let c = close_cycle(stack, start, next);
                    proof {
                        let p = stack@;
                        assert(c@.drop_last() == p.skip(start as int));
                        assert(c@[0] == next);
                        assert forall|j: int| 0 <= j < c@.len() - 1 implies has_edge(
                            adj,
                            #[trigger] c@[j] as int,
                            c@[j + 1] as int,
                        ) by {
                            if j < c@.len() - 2 {
                                assert(c@[j] == p[start + j]);
                                assert(c@[j + 1] == p[start + j + 1]);
                            } else {
                                assert(c@[j] == p.last());
                                assert(p.last() == node);
                                assert(adj[node as int][i as int] == next);
                            }
                        }
                        assert forall|j: int| 0 <= j < c@.len() implies (#[trigger] c@[j]) < adj.len() by {
                            if j < c@.len() - 1 {
                                assert(c@[j] == p[start + j]);
                            }
                        }
                        assert forall|a: int, b: int| 0 <= a < b < c@.drop_last().len() implies c@.drop_last()[a]
                            != c@.drop_last()[b] by {
                            assert(c@.drop_last()[a] == p[start + a]);
                            assert(c@.drop_last()[b] == p[start + b]);
                        }
                    }
                    return Some(c);
                },
                None => {
                    assert(false);
                    return None;
                },
            }
        }
        if state[next] == 0 {
            let ghost before = state@;
            proof {
                lemma_dfs_descend(adj, node as int, i as int, state@, stack@);
            }
            assert(unvisited(state@) < unvisited(s0));
            assert(has_edge(adj, stack@.last() as int, next as int)) by {
                assert(stack@.last() == node);
                assert(adj[node as int][i as int] == next);
            }
            let found = visit(next, adjacency, state, stack);
            match found {
                Some(c) => {
                    return Some(c);
                },
                None => {
                    proof {
                        assert forall|k: int| 0 <= k <= i implies state@[#[trigger] succ@[k] as int]
                            == 2 by {
                            if k < i {
                                assert(before[succ@[k] as int] == 2);
                            }
                        }
                        lemma_unvisited_le(before, state@);
                    }
                },
            }
        } else if state[next] != 1 {
            proof {
                assert(state@[next as int] <= 2);
                lemma_dfs_skip(adj, node as int, i as int, state@, stack@);
            }
        }
        i = i + 1;
    }
    proof {
        lemma_dfs_done(adj, node as int, i as int, state@, stack@);
    }
    proof {
        lemma_finish_acyclic(adj, state@, node as int);
    }
    let ghost mid = state@;
    state.set(node, 2);
    stack.pop();
    proof {
        assert(state@.len() == state.len());
        assert(stack@ == k0);
        assert forall|x: int| 0 <= x < state@.len() implies (state@[x] == 1 <==> stack@.contains(
            x as usize,
        )) by {
            if x != node {
                assert(mid[x] == state@[x]);
                if stack@.contains(x as usize) {
                    let j = choose|j: int| 0 <= j < k0.len() && k0[j] == x as usize;
                    assert(k0.push(node)[j] == x as usize);
                }
                if mid[x] == 1 {
                    assert(k0.push(node).contains(x as usize));
                    let j = choose|j: int| 0 <= j < k0.len() + 1 && k0.push(node)[j] == x as usize;
                    if j == k0.len() {
                        assert(false);
                    }
                    assert(k0[j] == x as usize);
                }
            } else {
                assert(!k0.contains(node)) by {
                    if k0.contains(node) {
                        assert(s0[node as int] == 1);
                    }
                }
            }
        }
    }
    None
}

/// The cycle that depth-first search finds first (see `dfs_cycle`): a simple
/// cycle of the graph if it has one; `None` exactly when it has none.
pub fn first_cycle(adjacency: &Vec<Vec<usize>>) -> (r: Option<Vec<usize>>)
    requires
        adjacency_ok(adjacency_rows(adjacency@)),
    ensures
        match r {
            Some(c) => dfs_cycle(adjacency_rows(adjacency@)) == Some(c@) && is_simple_cycle(
                adjacency_rows(adjacency@),
                c@,
            ),
            None => dfs_cycle(adjacency_rows(adjacency@)) is None && !has_cycle(
                adjacency_rows(adjacency@),
            ),
        },
{
    let ghost adj = adjacency_rows(adjacency@);
    let n = adjacency.len();
    let mut state: Vec<u8> = Vec::new();
    let mut j: usize = 0;
    while j < n
        invariant
            j <= n,
            state@.len() == j,
            forall|x: int| 0 <= x < j ==> #[trigger] state@[x] == 0,
        decreases n - j,
    {
        state.push(0);
        j = j + 1;
    }
    let ghost empty = Seq::<usize>::empty();
    assert(search_ok(adj, state@, empty)) by {
        assert forall|c: Seq<usize>| #![trigger is_cycle(adj, c)] is_cycle(adj, c) implies exists|k: int|
            0 <= k < c.len() && state@[c[k] as int] != 2 by {
            assert(state@[c[0] as int] != 2);
        }
    }
    assert(state@ == Seq::new(adj.len(), |i: int| 0u8));
    let mut node: usize = 0;
    while node < n
        invariant
            n == adjacency@.len(),
            adj == adjacency_rows(adjacency@),
            node <= n,
            search_ok(adj, state@, empty),
            empty == Seq::<usize>::empty(),
            forall|x: int| 0 <= x < node ==> #[trigger] state@[x] == 2,
            dfs_cycle(adj) == dfs_from(adj, node as int, state@),
        decreases n - node,
    {
        if state[node] == 0 {
            let mut stack: Vec<usize> = Vec::new();
            assert(stack@ == empty);
            let ghost before = state@;
            match visit(node, adjacency, &mut state, &mut stack) {
                Some(c) => {
                    return Some(c);
                },
                None => {
                    assert forall|x: int| 0 <= x <= node implies #[trigger] state@[x] == 2 by {
                        if x < node {
                            assert(before[x] == 2);
                        }
                    }
                },
            }
        } else {
            assert(state@[node as int] == 2) by {
                assert(state@[node as int] <= 2);
                assert(state@[node as int] == 1 <==> empty.contains(node as usize));
            }
        }
        node = node + 1;
    }
    assert forall|c: Seq<usize>| !is_cycle(adj, c) by {
        if is_cycle(adj, c) {
            let k = choose|k: int| 0 <= k < c.len() && state@[c[k] as int] != 2;
            assert(c[k] < adj.len());
        }
    }
    None
}

} // verus!
