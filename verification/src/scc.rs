use vstd::prelude::*;

verus! {

/// A directed graph on the nodes `0..g.len()`: `g[u]` lists the successors of `u`.
pub open spec fn wf_graph(g: Seq<Seq<usize>>) -> bool {
    forall|u: int, k: int| 0 <= u < g.len() && 0 <= k < g[u].len() ==> #[trigger] g[u][k] < g.len()
}

pub open spec fn has_edge(g: Seq<Seq<usize>>, u: int, v: int) -> bool {
    0 <= u < g.len() && g[u].contains(v as usize) && 0 <= v
}

/// `p` walks along edges of `g`.
pub open spec fn is_path(g: Seq<Seq<usize>>, p: Seq<usize>) -> bool {
    &&& p.len() > 0
    &&& forall|i: int| 0 <= i < p.len() ==> #[trigger] p[i] < g.len()
    &&& forall|i: int| 0 <= i < p.len() - 1 ==> has_edge(g, #[trigger] p[i] as int, p[i + 1] as int)
}

/// There is a path from `u` to `v`.
pub open spec fn reachable(g: Seq<Seq<usize>>, u: int, v: int) -> bool {
    exists|p: Seq<usize>| #[trigger] is_path(g, p) && p[0] == u && p.last() == v
}

/// `u` and `v` reach each other.
pub open spec fn strongly_connected(g: Seq<Seq<usize>>, u: int, v: int) -> bool {
    reachable(g, u, v) && reachable(g, v, u)
}

/// Every node of `0..n` lies in exactly one of `parts`, and no part is empty.
pub open spec fn is_partition(parts: Seq<Seq<usize>>, n: nat) -> bool {
    &&& forall|c: int| 0 <= c < parts.len() ==> #[trigger] parts[c].len() > 0
    &&& forall|c: int, k: int| 0 <= c < parts.len() && 0 <= k < parts[c].len() ==> #[trigger] parts[c][k] < n
    &&& forall|c: int| 0 <= c < parts.len() ==> #[trigger] parts[c].no_duplicates()
    &&& forall|c1: int, c2: int, x: usize|
        0 <= c1 < c2 < parts.len() ==> !(#[trigger] parts[c1].contains(x) && #[trigger] parts[c2].contains(x))
    &&& forall|x: usize| x < n ==> #[trigger] covered(parts, x)
}

/// Some part holds `x`.
pub open spec fn covered(parts: Seq<Seq<usize>>, x: usize) -> bool {
    exists|c: int| 0 <= c < parts.len() && #[trigger] parts[c].contains(x)
}

pub open spec fn count_false(s: Seq<bool>) -> nat
    decreases s.len(),
{
    if s.len() == 0 {
        0
    } else {
        count_false(s.drop_last()) + if s.last() {
            0nat
        } else {
            1nat
        }
    }
}

/// `b` marks at least what `a` marks.
pub open spec fn grows(a: Seq<bool>, b: Seq<bool>) -> bool {
    a.len() == b.len() && forall|i: int| 0 <= i < a.len() && #[trigger] a[i] ==> b[i]
}

pub proof fn lemma_count_false_grows(a: Seq<bool>, b: Seq<bool>)
    requires
        grows(a, b),
    ensures
        count_false(b) <= count_false(a),
        (exists|i: int| 0 <= i < a.len() && !a[i] && b[i]) ==> count_false(b) < count_false(a),
    decreases a.len(),
{
    if a.len() > 0 {
        let a1 = a.drop_last();
        let b1 = b.drop_last();
        assert(grows(a1, b1)) by {
            assert forall|i: int| 0 <= i < a1.len() && #[trigger] a1[i] implies b1[i] by {
                assert(a[i]);
            }
        }
        lemma_count_false_grows(a1, b1);
        if exists|i: int| 0 <= i < a.len() && !a[i] && b[i] {
            let i = choose|i: int| 0 <= i < a.len() && !a[i] && b[i];
            if i < a.len() - 1 {
                assert(!a1[i] && b1[i]);
            }
        }
    }
}

pub proof fn lemma_path_concat(g: Seq<Seq<usize>>, u: int, v: int, w: int)
    requires
        reachable(g, u, v),
        reachable(g, v, w),
    ensures
        reachable(g, u, w),
{
    let p = choose|p: Seq<usize>| is_path(g, p) && p[0] == u && p.last() == v;
    let q = choose|q: Seq<usize>| is_path(g, q) && q[0] == v && q.last() == w;
    let r = p + q.drop_first();
    assert(is_path(g, r)) by {
        assert forall|i: int| 0 <= i < r.len() - 1 implies has_edge(g, #[trigger] r[i] as int, r[i + 1] as int) by {
            if i < p.len() - 1 {
                assert(r[i] == p[i] && r[i + 1] == p[i + 1]);
            } else if i == p.len() - 1 {
                assert(r[i] == q[0]);
                assert(r[i + 1] == q[1]);
            } else {
                let j = i - p.len() + 1;
                assert(r[i] == q[j] && r[i + 1] == q[j + 1]);
            }
        }
        assert forall|i: int| 0 <= i < r.len() implies #[trigger] r[i] < g.len() by {
            if i < p.len() {
                assert(r[i] == p[i]);
            } else {
                assert(r[i] == q[i - p.len() + 1]);
            }
        }
    }
    if q.len() == 1 {
        assert(r =~= p);
    } else {
        assert(r.last() == q.last());
    }
    assert(r[0] == u);
}

pub proof fn lemma_reachable_self(g: Seq<Seq<usize>>, u: usize)
    requires
        u < g.len(),
    ensures
        reachable(g, u as int, u as int),
{
    let p = seq![u];
    assert(is_path(g, p) && p[0] == u && p.last() == u);
}

pub proof fn lemma_reachable_edge(g: Seq<Seq<usize>>, u: usize, v: usize)
    requires
        has_edge(g, u as int, v as int),
        v < g.len(),
    ensures
        reachable(g, u as int, v as int),
{
    let p = seq![u, v];
    assert(p[1] == v);
    assert(is_path(g, p) && p[0] == u && p.last() == v);
}

pub proof fn lemma_concat_contains<T>(a: Seq<T>, b: Seq<T>, x: T)
    ensures
        (a + b).contains(x) == (a.contains(x) || b.contains(x)),
{
    if (a + b).contains(x) {
        let i = choose|i: int| 0 <= i < (a + b).len() && (a + b)[i] == x;
        if i < a.len() {
            assert(a[i] == x);
        } else {
            assert(b[i - a.len()] == x);
        }
    }
    if a.contains(x) {
        let i = choose|i: int| 0 <= i < a.len() && a[i] == x;
        assert((a + b)[i] == x);
    }
    if b.contains(x) {
        let i = choose|i: int| 0 <= i < b.len() && b[i] == x;
        assert((a + b)[i + a.len()] == x);
    }
}

/// The nodes newly marked between `a` and `b`.
pub open spec fn newly_marked(a: Seq<bool>, b: Seq<bool>, x: usize) -> bool {
    x < b.len() && b[x as int] && !a[x as int]
}

/// Every successor of a node of `o` is marked.
pub open spec fn successors_marked(g: Seq<Seq<usize>>, o: Seq<usize>, visited: Seq<bool>) -> bool {
    forall|u: int, v: int| #[trigger] has_edge(g, u, v) && v < g.len() && o.contains(u as usize) ==> 0 <= v
        < visited.len() && visited[v]
}

/// `x` is marked but not finished: its search is still under way.
pub open spec fn gray(o: Seq<usize>, visited: Seq<bool>, x: int) -> bool {
    0 <= x < visited.len() && visited[x] && !o.contains(x as usize)
}

/// `v` shares its component with a node finished after position `j` of `o`,
/// or with a node whose search is still under way.
pub open spec fn finishes_later(g: Seq<Seq<usize>>, o: Seq<usize>, visited: Seq<bool>, j: int, v: int) -> bool {
    ||| exists|k: int| j < k < o.len() && #[trigger] strongly_connected(g, o[k] as int, v)
    ||| exists|x: int| #[trigger] gray(o, visited, x) && strongly_connected(g, x, v)
}

/// The finishing order of a depth-first search: when a node finished earlier
/// reaches one finished later without being reached back, its component
/// finishes later still.
pub open spec fn finish_order(g: Seq<Seq<usize>>, o: Seq<usize>, visited: Seq<bool>) -> bool {
    forall|i: int, j: int|
        0 <= i < j < o.len() && #[trigger] reachable(g, o[i] as int, o[j] as int) && !reachable(
            g,
            o[j] as int,
            o[i] as int,
        ) ==> finishes_later(g, o, visited, j, o[i] as int)
}

/// A finished node that reaches a node under way shares its component with a
/// node under way.
pub open spec fn gray_absorbs(g: Seq<Seq<usize>>, o: Seq<usize>, visited: Seq<bool>) -> bool {
    forall|i: int, x: int|
        0 <= i < o.len() && gray(o, visited, x) && #[trigger] reachable(g, o[i] as int, x) ==> exists|y: int|
            #[trigger] gray(o, visited, y) && strongly_connected(g, y, o[i] as int)
}

pub proof fn lemma_sc_trans(g: Seq<Seq<usize>>, a: int, b: int, c: int)
    requires
        strongly_connected(g, a, b),
        strongly_connected(g, b, c),
    ensures
        strongly_connected(g, a, c),
{
    lemma_path_concat(g, a, b, c);
    lemma_path_concat(g, c, b, a);
}

/// A path that starts at a finished node and ends outside the finished nodes
/// passes a node under way, when successors of finished nodes are marked.
proof fn lemma_exit_path(g: Seq<Seq<usize>>, o: Seq<usize>, visited: Seq<bool>, p: Seq<usize>, start: int)
    requires
        is_path(g, p),
        0 <= start < p.len(),
        o.contains(p[start]),
        !o.contains(p.last()),
        successors_marked(g, o, visited),
    ensures
        exists|z: int| #[trigger] gray(o, visited, z) && reachable(g, p[start] as int, z),
    decreases p.len() - start,
{
    assert(start < p.len() - 1);
    let nx = p[start + 1];
    assert(has_edge(g, p[start] as int, nx as int));
    lemma_reachable_edge(g, p[start], nx);
    if !o.contains(nx) {
        assert(gray(o, visited, nx as int));
    } else {
        lemma_exit_path(g, o, visited, p, start + 1);
        let z = choose|z: int| #[trigger] gray(o, visited, z) && reachable(g, p[start + 1] as int, z);
        lemma_path_concat(g, p[start] as int, nx as int, z);
        assert(gray(o, visited, z));
    }
}

/// A finished node that reaches an unfinished node reaches a node under way.
pub proof fn lemma_exit_finished(g: Seq<Seq<usize>>, o: Seq<usize>, visited: Seq<bool>, i: int, w: int)
    requires
        0 <= i < o.len(),
        reachable(g, o[i] as int, w),
        !o.contains(w as usize),
        successors_marked(g, o, visited),
    ensures
        exists|z: int| #[trigger] gray(o, visited, z) && reachable(g, o[i] as int, z),
{
    let p = choose|p: Seq<usize>| #[trigger] is_path(g, p) && p[0] == o[i] as int && p.last() == w;
    assert(o.contains(p[0])) by {
        assert(o[i] == p[0]);
    }
    lemma_exit_path(g, o, visited, p, 0);
}

/// Depth-first search from `node`, appending each node it finishes to `order`.
pub fn dfs_postorder(node: usize, graph: &Vec<Vec<usize>>, visited: &mut Vec<bool>, order: &mut Vec<usize>)
    requires
        wf_graph(graph.deep_view()),
        old(visited)@.len() == graph@.len(),
        node < graph@.len(),
        forall|x: usize| #[trigger] old(order)@.contains(x) ==> x < old(visited)@.len() && old(visited)@[x as int],
        successors_marked(graph.deep_view(), old(order)@, old(visited)@),
        finish_order(graph.deep_view(), old(order)@, old(visited)@),
        gray_absorbs(graph.deep_view(), old(order)@, old(visited)@),
        forall|x: int| #[trigger] gray(old(order)@, old(visited)@, x) ==> reachable(graph.deep_view(), x, node as int),
    ensures
        grows(old(visited)@, final(visited)@),
        final(visited)@[node as int],
        final(order)@.subrange(0, old(order)@.len() as int) == old(order)@,
        final(order)@.len() >= old(order)@.len(),
        final(order)@.subrange(old(order)@.len() as int, final(order)@.len() as int).no_duplicates(),
        forall|x: usize| #[trigger]
            final(order)@.subrange(old(order)@.len() as int, final(order)@.len() as int).contains(x)
                <==> newly_marked(old(visited)@, final(visited)@, x),
        forall|x: usize| newly_marked(old(visited)@, final(visited)@, x) ==> reachable(graph.deep_view(), node as int, x as int),
        forall|x: usize| #[trigger] final(order)@.contains(x) ==> x < final(visited)@.len() && final(visited)@[x as int],
        forall|x: int| #[trigger] gray(final(order)@, final(visited)@, x) == gray(old(order)@, old(visited)@, x),
        successors_marked(graph.deep_view(), final(order)@, final(visited)@),
        finish_order(graph.deep_view(), final(order)@, final(visited)@),
        gray_absorbs(graph.deep_view(), final(order)@, final(visited)@),
    decreases count_false(old(visited)@),
{
    let ghost g = graph.deep_view();
    let ghost v0 = visited@;
    let ghost o0 = order@;
    let ghost base = order@.len() as int;
    if visited[node] {
        assert(order@.subrange(0, base) =~= order@);
        assert(order@.subrange(base, base) =~= Seq::<usize>::empty());
        return ;
    }
    visited.set(node, true);
    proof {
        assert(grows(v0, visited@));
        lemma_count_false_grows(v0, visited@);
        lemma_reachable_self(g, node);
        assert(order@.subrange(0, base) =~= order@);
        assert(order@.subrange(base, base) =~= Seq::<usize>::empty());
        assert(!o0.contains(node));
        assert forall|x: int| #[trigger] gray(order@, visited@, x) == (gray(o0, v0, x) || x == node) by {}
        assert(successors_marked(g, order@, visited@)) by {
            assert forall|u: int, v: int| #[trigger] has_edge(g, u, v) && v < g.len() && order@.contains(u as usize)
                implies 0 <= v < visited@.len() && visited@[v] by {
                assert(v0[v]);
            }
        }
        assert(finish_order(g, order@, visited@)) by {
            assert forall|i: int, j: int|
                0 <= i < j < order@.len() && #[trigger] reachable(g, order@[i] as int, order@[j] as int)
                    && !reachable(g, order@[j] as int, order@[i] as int) implies finishes_later(
                g,
                order@,
                visited@,
                j,
                order@[i] as int,
            ) by {
                assert(finishes_later(g, o0, v0, j, o0[i] as int));
                if !(exists|k: int| j < k < o0.len() && #[trigger] strongly_connected(g, o0[k] as int, o0[i] as int)) {
                    let x = choose|x: int| #[trigger] gray(o0, v0, x) && strongly_connected(g, x, o0[i] as int);
                    assert(gray(order@, visited@, x));
                }
            }
        }
        assert(gray_absorbs(g, order@, visited@)) by {
            assert forall|i: int, x: int|
                0 <= i < order@.len() && gray(order@, visited@, x) && #[trigger] reachable(g, order@[i] as int, x)
                implies exists|y: int| #[trigger] gray(order@, visited@, y) && strongly_connected(g, y, order@[i] as int) by {
                if x == node {
                    lemma_exit_finished(g, o0, v0, i, x);
                    let z = choose|z: int| #[trigger] gray(o0, v0, z) && reachable(g, o0[i] as int, z);
                    assert(reachable(g, o0[i] as int, z));
                    let y = choose|y: int| #[trigger] gray(o0, v0, y) && strongly_connected(g, y, o0[i] as int);
                    assert(gray(order@, visited@, y));
                } else {
                    assert(gray(o0, v0, x));
                    let y = choose|y: int| #[trigger] gray(o0, v0, y) && strongly_connected(g, y, o0[i] as int);
                    assert(gray(order@, visited@, y));
                }
            }
        }
    }
    let neighbors = &graph[node];
    assert(neighbors@ == g[node as int]);
    let mut k: usize = 0;
    while k < neighbors.len()
        invariant
            g == graph.deep_view(),
            wf_graph(g),
            neighbors@ == g[node as int],
            node < g.len(),
            visited@.len() == g.len(),
            v0 == old(visited)@,
            o0 == old(order)@,
            !v0[node as int],
            !o0.contains(node),
            grows(v0, visited@),
            visited@[node as int],
            count_false(visited@) < count_false(v0),
            base == old(order)@.len(),
            order@.len() >= base,
            order@.subrange(0, base) == old(order)@,
            order@.subrange(base, order@.len() as int).no_duplicates(),
            forall|x: usize| #[trigger] order@.subrange(base, order@.len() as int).contains(x) <==> (
                newly_marked(v0, visited@, x) && x != node),
            forall|x: usize| newly_marked(v0, visited@, x) ==> reachable(g, node as int, x as int),
            forall|x: usize| #[trigger] o0.contains(x) ==> x < v0.len() && v0[x as int],
            forall|x: usize| #[trigger] order@.contains(x) ==> x < visited@.len() && visited@[x as int],
            forall|x: int| #[trigger] gray(order@, visited@, x) == (gray(o0, v0, x) || x == node),
            forall|x: int| #[trigger] gray(o0, v0, x) ==> reachable(g, x, node as int),
            forall|j: int| 0 <= j < k ==> visited@[#[trigger] neighbors@[j] as int],
            successors_marked(g, o0, v0),
            gray_absorbs(g, o0, v0),
            successors_marked(g, order@, visited@),
            finish_order(g, order@, visited@),
            gray_absorbs(g, order@, visited@),
        decreases neighbors@.len() - k,
    {
        let next = neighbors[k];
        let ghost v1 = visited@;
        let ghost o1 = order@;
        proof {
            assert(g[node as int][k as int] < g.len());
            assert(has_edge(g, node as int, next as int)) by {
                assert(g[node as int][k as int] == next);
            }
            lemma_reachable_edge(g, node, next);
            assert forall|x: int| #[trigger] gray(order@, visited@, x) implies reachable(g, x, next as int) by {
                if x != node {
                    lemma_path_concat(g, x, node as int, next as int);
                }
            }
        }
        dfs_postorder(next, graph, visited, order);
        proof {
            let seg_old = o1.subrange(base, o1.len() as int);
            let seg_new = order@.subrange(o1.len() as int, order@.len() as int);
            assert(order@.subrange(base, order@.len() as int) =~= seg_old + seg_new);
            assert(order@.subrange(0, base) =~= o1.subrange(0, base));
            assert forall|x: usize| seg_old.contains(x) implies !seg_new.contains(x) by {
                assert(v1[x as int]);
            }
            lemma_no_duplicates_concat(seg_old, seg_new);
            assert(has_edge(g, node as int, next as int)) by {
                assert(g[node as int][k as int] == next);
            }
            lemma_reachable_edge(g, node, next);
            assert forall|x: usize| newly_marked(v0, visited@, x) implies reachable(g, node as int, x as int) by {
                if !v1[x as int] {
                    lemma_path_concat(g, node as int, next as int, x as int);
                }
            }
            assert forall|x: usize| #[trigger] order@.subrange(base, order@.len() as int).contains(x) <==> (
                newly_marked(v0, visited@, x) && x != node) by {
                lemma_concat_contains(seg_old, seg_new, x);
                if seg_new.contains(x) {
                    assert(newly_marked(v1, visited@, x));
                }
                if seg_old.contains(x) {
                    assert(newly_marked(v0, v1, x));
                }
                if newly_marked(v0, visited@, x) && x != node {
                    if v1[x as int] {
                        assert(seg_old.contains(x));
                    } else {
                        assert(seg_new.contains(x));
                    }
                }
            }
            assert(grows(v0, visited@));
            lemma_count_false_grows(v0, visited@);
            assert forall|j: int| 0 <= j < k + 1 implies visited@[#[trigger] neighbors@[j] as int] by {
                if j < k {
                    assert(v1[neighbors@[j] as int]);
                }
            }
        }
        k += 1;
    }
    let ghost o2 = order@;
    let ghost vf = visited@;
    order.push(node);
    proof {
        assert(g.len() <= usize::MAX) by {
            assert(graph.len() == graph@.len());
        }
        let seg = o2.subrange(base, o2.len() as int);
        assert(order@.subrange(base, order@.len() as int) =~= seg.push(node));
        assert(order@.subrange(0, base) =~= o2.subrange(0, base));
        lemma_no_duplicates_concat(seg, seq![node]);
        assert(seg + seq![node] =~= seg.push(node));
        assert forall|x: usize| #[trigger] order@.subrange(base, order@.len() as int).contains(x)
            <==> newly_marked(v0, visited@, x) by {
            lemma_concat_contains(seg, seq![node], x);
            if x == node {
                assert(seg.push(node)[seg.len() as int] == node);
            } else if seg.push(node).contains(x) {
                let i = choose|i: int| 0 <= i < seg.len() + 1 && seg.push(node)[i] == x;
                assert(seg[i] == x);
            } else if seg.contains(x) {
                let i = choose|i: int| 0 <= i < seg.len() && seg[i] == x;
                assert(seg.push(node)[i] == x);
            }
        }
        let o3 = order@;
        assert(o3 == o2.push(node));
        assert forall|x: usize| #[trigger] o3.contains(x) == (o2.contains(x) || x == node) by {
            if o3.contains(x) {
                let i = choose|i: int| 0 <= i < o3.len() && o3[i] == x;
                if i < o2.len() {
                    assert(o2[i] == x);
                }
            }
            if o2.contains(x) {
                let i = choose|i: int| 0 <= i < o2.len() && o2[i] == x;
                assert(o3[i] == x);
            }
            if x == node {
                assert(o3[o2.len() as int] == x);
            }
        }
        assert forall|x: usize| #[trigger] o3.contains(x) implies x < vf.len() && vf[x as int] by {}
        assert forall|x: int| #[trigger] gray(o3, vf, x) == gray(o0, v0, x) by {
            if 0 <= x < vf.len() {
                let xu = x as usize;
                assert(o3.contains(xu) == (o2.contains(xu) || xu == node));
                assert(gray(o2, vf, x) == (gray(o0, v0, x) || x == node));
                if xu == node {
                    assert(o3.contains(xu));
                    assert(!gray(o0, v0, x));
                }
            }
        }
        assert(successors_marked(g, o3, vf)) by {
            assert forall|u: int, v: int| #[trigger] has_edge(g, u, v) && v < g.len() && o3.contains(u as usize)
                implies 0 <= v < vf.len() && vf[v] by {
                if u == node {
                    let j = choose|j: int| 0 <= j < g[u].len() && g[u][j] == v as usize;
                    assert(vf[neighbors@[j] as int]);
                } else {
                    assert(0 <= u < g.len());
                    assert(o2.contains(u as usize));
                }
            }
        }
        assert(gray_absorbs(g, o3, vf)) by {
            assert forall|i: int, x: int|
                0 <= i < o3.len() && gray(o3, vf, x) && #[trigger] reachable(g, o3[i] as int, x)
                implies exists|y: int| #[trigger] gray(o3, vf, y) && strongly_connected(g, y, o3[i] as int) by {
                assert(gray(o0, v0, x));
                assert(reachable(g, x, node as int));
                if i < o2.len() {
                    assert(o3[i] == o2[i]);
                    assert(gray(o2, vf, x));
                    let y = choose|y: int| #[trigger] gray(o2, vf, y) && strongly_connected(g, y, o2[i] as int);
                    if y == node {
                        lemma_path_concat(g, node as int, o2[i] as int, x);
                        lemma_path_concat(g, o2[i] as int, x, node as int);
                        lemma_path_concat(g, x, node as int, o2[i] as int);
                        assert(strongly_connected(g, x, o3[i] as int));
                        assert(gray(o3, vf, x));
                    } else {
                        assert(gray(o3, vf, y));
                    }
                } else {
                    assert(o3[i] == node);
                    assert(strongly_connected(g, x, o3[i] as int));
                    assert(gray(o3, vf, x));
                }
            }
        }
        assert(finish_order(g, o3, vf)) by {
            assert forall|i: int, j: int|
                0 <= i < j < o3.len() && #[trigger] reachable(g, o3[i] as int, o3[j] as int)
                    && !reachable(g, o3[j] as int, o3[i] as int) implies finishes_later(g, o3, vf, j, o3[i] as int) by {
                assert(o3[i] == o2[i]);
                if j < o2.len() {
                    assert(o3[j] == o2[j]);
                    assert(finishes_later(g, o2, vf, j, o2[i] as int));
                    if exists|k: int| j < k < o2.len() && #[trigger] strongly_connected(g, o2[k] as int, o2[i] as int) {
                        let k = choose|k: int| j < k < o2.len() && #[trigger] strongly_connected(g, o2[k] as int, o2[i] as int);
                        assert(o3[k] == o2[k]);
                        assert(strongly_connected(g, o3[k] as int, o3[i] as int));
                    } else {
                        let y = choose|y: int| #[trigger] gray(o2, vf, y) && strongly_connected(g, y, o2[i] as int);
                        if y == node {
                            assert(o3[o2.len() as int] == node);
                            assert(strongly_connected(g, o3[o2.len() as int] as int, o3[i] as int));
                        } else {
                            assert(gray(o3, vf, y));
                        }
                    }
                } else {
                    assert(o3[j] == node);
                    if i >= base {
                        assert(seg.contains(o2[i])) by {
                            assert(seg[i - base] == o2[i]);
                        }
                        assert(order@.subrange(base, order@.len() as int).contains(o2[i])) by {
                            assert(order@.subrange(base, order@.len() as int)[i - base] == o2[i]);
                        }
                        assert(newly_marked(v0, vf, o2[i]));
                        assert(false);
                    } else {
                        assert(o2[i] == o0[i]) by {
                            assert(o2.subrange(0, base)[i] == o0[i]);
                        }
                        lemma_exit_finished(g, o0, v0, i, node as int);
                        let z = choose|z: int| #[trigger] gray(o0, v0, z) && reachable(g, o0[i] as int, z);
                        assert(reachable(g, o0[i] as int, z));
                        let y = choose|y: int| #[trigger] gray(o0, v0, y) && strongly_connected(g, y, o0[i] as int);
                        assert(gray(o3, vf, y));
                    }
                }
            }
        }
    }
}

pub proof fn lemma_no_duplicates_concat(a: Seq<usize>, b: Seq<usize>)
    requires
        a.no_duplicates(),
        b.no_duplicates(),
        forall|x: usize| a.contains(x) ==> !b.contains(x),
    ensures
        (a + b).no_duplicates(),
{
    let c = a + b;
    assert forall|i: int, j: int| 0 <= i < c.len() && 0 <= j < c.len() && i != j implies c[i] != c[j] by {
        if i < a.len() && j >= a.len() {
            assert(a.contains(c[i]));
            assert(b[j - a.len()] == c[j]);
        } else if j < a.len() && i >= a.len() {
            assert(a.contains(c[j]));
            assert(b[i - a.len()] == c[i]);
        } else if i >= a.len() && j >= a.len() {
            assert(b[i - a.len()] == c[i] && b[j - a.len()] == c[j]);
        }
    }
}

/// Every node marked between `a` and `b` has all its successors marked in `b`.
pub open spec fn marking_closed(g: Seq<Seq<usize>>, a: Seq<bool>, b: Seq<bool>) -> bool {
    forall|u: int, v: int|
        #[trigger] has_edge(g, u, v) && v < g.len() && 0 <= u < b.len() && b[u] && !a[u] ==> 0 <= v < b.len()
            && b[v]
}

/// A path through nodes unmarked in `a`, from a node marked between `a` and
/// `b`, lies entirely in `b` when that marking is closed.
pub proof fn lemma_white_path(g: Seq<Seq<usize>>, a: Seq<bool>, b: Seq<bool>, p: Seq<usize>, i: int)
    requires
        is_path(g, p),
        a.len() == g.len(),
        b.len() == g.len(),
        b[p[0] as int],
        forall|k: int| 0 <= k < p.len() ==> !a[#[trigger] p[k] as int],
        marking_closed(g, a, b),
        0 <= i < p.len(),
    ensures
        b[p[i] as int],
    decreases i,
{
    if i > 0 {
        lemma_white_path(g, a, b, p, i - 1);
        assert(has_edge(g, p[i - 1] as int, p[i] as int));
        assert(!a[p[i - 1] as int]);
    }
}

/// Depth-first search from `node`, appending each node it reaches first to `component`.
pub fn dfs_collect_component(
    node: usize,
    graph: &Vec<Vec<usize>>,
    visited: &mut Vec<bool>,
    component: &mut Vec<usize>,
)
    requires
        wf_graph(graph.deep_view()),
        old(visited)@.len() == graph@.len(),
        node < graph@.len(),
    ensures
        grows(old(visited)@, final(visited)@),
        final(visited)@[node as int],
        final(component)@.subrange(0, old(component)@.len() as int) == old(component)@,
        final(component)@.len() >= old(component)@.len(),
        !old(visited)@[node as int] ==> final(component)@.len() > old(component)@.len()
            && final(component)@[old(component)@.len() as int] == node,
        final(component)@.subrange(old(component)@.len() as int, final(component)@.len() as int).no_duplicates(),
        forall|x: usize| #[trigger]
            final(component)@.subrange(old(component)@.len() as int, final(component)@.len() as int).contains(x)
                <==> newly_marked(old(visited)@, final(visited)@, x),
        forall|x: usize| newly_marked(old(visited)@, final(visited)@, x) ==> reachable(graph.deep_view(), node as int, x as int),
        marking_closed(graph.deep_view(), old(visited)@, final(visited)@),
    decreases count_false(old(visited)@),
{
    let ghost g = graph.deep_view();
    let ghost v0 = visited@;
    let ghost base = component@.len() as int;
    if visited[node] {
        assert(component@.subrange(0, base) =~= component@);
        assert(component@.subrange(base, base) =~= Seq::<usize>::empty());
        return ;
    }
    visited.set(node, true);
    component.push(node);
    proof {
        assert(grows(v0, visited@));
        lemma_count_false_grows(v0, visited@);
        lemma_reachable_self(g, node);
        assert(component@.subrange(0, base) =~= old(component)@);
        assert(component@.subrange(base, component@.len() as int) =~= seq![node]);
        assert forall|x: usize| #[trigger] seq![node].contains(x) <==> x == node by {
            if seq![node].contains(x) {
                let i = choose|i: int| 0 <= i < 1 && seq![node][i] == x;
            }
            if x == node {
                assert(seq![node][0] == x);
            }
        }
    }
    let neighbors = &graph[node];
    assert(neighbors@ == g[node as int]);
    let mut k: usize = 0;
    while k < neighbors.len()
        invariant
            g == graph.deep_view(),
            wf_graph(g),
            neighbors@ == g[node as int],
            node < g.len(),
            visited@.len() == g.len(),
            v0 == old(visited)@,
            !v0[node as int],
            grows(v0, visited@),
            visited@[node as int],
            count_false(visited@) < count_false(v0),
            base == old(component)@.len(),
            component@.len() > base,
            component@[base] == node,
            component@.subrange(0, base) == old(component)@,
            component@.subrange(base, component@.len() as int).no_duplicates(),
            forall|x: usize| #[trigger] component@.subrange(base, component@.len() as int).contains(x) <==> newly_marked(v0, visited@, x),
            forall|x: usize| newly_marked(v0, visited@, x) ==> reachable(g, node as int, x as int),
            forall|j: int| 0 <= j < k ==> visited@[#[trigger] neighbors@[j] as int],
            forall|u: int, v: int|
                #[trigger] has_edge(g, u, v) && v < g.len() && 0 <= u < visited@.len() && visited@[u] && !v0[u] && u
                    != node ==> visited@[v],
        decreases neighbors@.len() - k,
    {
        let next = neighbors[k];
        let ghost v1 = visited@;
        let ghost o1 = component@;
        proof {
            assert(g[node as int][k as int] < g.len());
        }
        dfs_collect_component(next, graph, visited, component);
        proof {
            let seg_old = o1.subrange(base, o1.len() as int);
            let seg_new = component@.subrange(o1.len() as int, component@.len() as int);
            assert(component@.subrange(base, component@.len() as int) =~= seg_old + seg_new);
            assert(component@.subrange(0, base) =~= o1.subrange(0, base));
            assert(component@[base] == o1[base]);
            assert forall|x: usize| seg_old.contains(x) implies !seg_new.contains(x) by {
                assert(v1[x as int]);
            }
            lemma_no_duplicates_concat(seg_old, seg_new);
            assert(has_edge(g, node as int, next as int)) by {
                assert(g[node as int][k as int] == next);
            }
            lemma_reachable_edge(g, node, next);
            assert forall|x: usize| newly_marked(v0, visited@, x) implies reachable(g, node as int, x as int) by {
                if !v1[x as int] {
                    lemma_path_concat(g, node as int, next as int, x as int);
                }
            }
            assert forall|x: usize| #[trigger] component@.subrange(base, component@.len() as int).contains(x) <==> newly_marked(v0, visited@, x) by {
                lemma_concat_contains(seg_old, seg_new, x);
                if seg_new.contains(x) {
                    assert(newly_marked(v1, visited@, x));
                }
                if seg_old.contains(x) {
                    assert(newly_marked(v0, v1, x));
                }
                if newly_marked(v0, visited@, x) {
                    if v1[x as int] {
                        assert(seg_old.contains(x));
                    } else {
                        assert(seg_new.contains(x));
                    }
                }
            }
            assert(grows(v0, visited@));
            lemma_count_false_grows(v0, visited@);
            assert forall|j: int| 0 <= j < k + 1 implies visited@[#[trigger] neighbors@[j] as int] by {
                if j < k {
                    assert(v1[neighbors@[j] as int]);
                }
            }
            assert forall|u: int, v: int|
                #[trigger] has_edge(g, u, v) && v < g.len() && 0 <= u < visited@.len() && visited@[u] && !v0[u] && u
                    != node implies visited@[v] by {
                if v1[u] {
                    assert(v1[v]);
                }
            }
        }
        k += 1;
    }
    proof {
        assert(g.len() <= usize::MAX) by {
            assert(graph.len() == graph@.len());
        }
        assert forall|u: int, v: int|
            #[trigger] has_edge(g, u, v) && v < g.len() && 0 <= u < visited@.len() && visited@[u] && !v0[u]
            implies 0 <= v < visited@.len() && visited@[v] by {
            if u == node {
                let j = choose|j: int| 0 <= j < g[u].len() && g[u][j] == v as usize;
                assert(visited@[neighbors@[j] as int]);
            }
        }
    }
}

/// The graph with every edge turned around.
pub fn transpose_graph(graph: &Vec<Vec<usize>>) -> (r: Vec<Vec<usize>>)
    requires
        wf_graph(graph.deep_view()),
    ensures
        r@.len() == graph@.len(),
        wf_graph(r.deep_view()),
        forall|u: int, v: int| 0 <= u < graph@.len() && 0 <= v < graph@.len() ==>
            (#[trigger] has_edge(r.deep_view(), v, u) <==> #[trigger] has_edge(graph.deep_view(), u, v)),
{
    let ghost g = graph.deep_view();
    let n = graph.len();
    let mut reversed: Vec<Vec<usize>> = Vec::new();
    let mut i: usize = 0;
    while i < n
        invariant
            0 <= i <= n,
            n == g.len(),
            reversed@.len() == i,
            forall|j: int| 0 <= j < i ==> #[trigger] reversed@[j]@ == Seq::<usize>::empty(),
        decreases n - i,
    {
        reversed.push(Vec::new());
        i += 1;
    }
    let mut u: usize = 0;
    while u < n
        invariant
            0 <= u <= n,
            n == g.len(),
            g == graph.deep_view(),
            wf_graph(g),
            reversed@.len() == n,
            forall|v: int, k: int| 0 <= v < n && 0 <= k < reversed@[v]@.len() ==> #[trigger] reversed@[v]@[k] < u,
            forall|v: int, w: int| 0 <= v < n && 0 <= w < n ==> (#[trigger] reversed@[v]@.contains(w as usize)
                <==> (w < u && g[w].contains(v as usize))),
        decreases n - u,
    {
        let row = &graph[u];
        assert(row@ == g[u as int]);
        let mut k: usize = 0;
        while k < row.len()
            invariant
                0 <= u < n,
                n == g.len(),
                g == graph.deep_view(),
                wf_graph(g),
                row@ == g[u as int],
                0 <= k <= row@.len(),
                reversed@.len() == n,
                forall|v: int, j: int| 0 <= v < n && 0 <= j < reversed@[v]@.len() ==> #[trigger] reversed@[v]@[j] <= u,
                forall|v: int, w: int| 0 <= v < n && 0 <= w < n ==> (#[trigger] reversed@[v]@.contains(w as usize)
                    <==> ((w < u && g[w].contains(v as usize)) || (w == u && row@.subrange(0, k as int).contains(v as usize)))),
            decreases row@.len() - k,
        {
            let v = row[k];
            assert(v < n) by {
                assert(g[u as int][k as int] < g.len());
            }
            let ghost before = reversed@;
            reversed[v].push(u);
            proof {
                assert forall|x: int, w: int| 0 <= x < n && 0 <= w < n implies (#[trigger] reversed@[x]@.contains(w as usize)
                    <==> ((w < u && g[w].contains(x as usize)) || (w == u && row@.subrange(0, k + 1).contains(x as usize)))) by {
                    assert(row@.subrange(0, k + 1) =~= row@.subrange(0, k as int).push(v));
                    lemma_concat_contains(row@.subrange(0, k as int), seq![v], x as usize);
                    assert(row@.subrange(0, k as int).push(v) =~= row@.subrange(0, k as int) + seq![v]);
                    if x == v {
                        assert(reversed@[x]@ =~= before[x]@.push(u));
                        lemma_concat_contains(before[x]@, seq![u], w as usize);
                        assert(before[x]@.push(u) =~= before[x]@ + seq![u]);
                        assert(seq![u].contains(w as usize) <==> w == u) by {
                            if w == u {
                                assert(seq![u][0] == u);
                            }
                        }
                        assert(seq![v].contains(x as usize)) by {
                            assert(seq![v][0] == v);
                        }
                    } else {
                        assert(reversed@[x] == before[x]);
                        assert(!seq![v].contains(x as usize));
                    }
                }
                assert forall|x: int, j: int| 0 <= x < n && 0 <= j < reversed@[x]@.len() implies #[trigger] reversed@[x]@[j] <= u by {
                    if x == v {
                        assert(reversed@[x]@ =~= before[x]@.push(u));
                        if j < before[x]@.len() {
                            assert(reversed@[x]@[j] == before[x]@[j]);
                        }
                    } else {
                        assert(reversed@[x] == before[x]);
                    }
                }
            }
            k += 1;
        }
        proof {
            assert(row@.subrange(0, row@.len() as int) =~= row@);
            assert forall|x: int, j: int| 0 <= x < n && 0 <= j < reversed@[x]@.len() implies #[trigger] reversed@[x]@[j] < u + 1 by {
            }
            assert forall|x: int, w: int| 0 <= x < n && 0 <= w < n implies (#[trigger] reversed@[x]@.contains(w as usize)
                <==> (w < u + 1 && g[w].contains(x as usize))) by {
            }
        }
        u += 1;
    }
    proof {
        let r = reversed.deep_view();
        assert forall|x: int| 0 <= x < n implies #[trigger] r[x] == reversed@[x]@ by {}
        assert forall|x: int, j: int| 0 <= x < r.len() && 0 <= j < r[x].len() implies #[trigger] r[x][j] < r.len() by {
            assert(r[x] == reversed@[x]@);
        }
        assert forall|a: int, b: int| 0 <= a < n && 0 <= b < n implies (#[trigger] has_edge(r, b, a) <==> #[trigger] has_edge(g, a, b)) by {
            assert(r[b] == reversed@[b]@);
        }
    }
    reversed
}

/// A path in the transposed graph, walked backwards, is a path in the graph.
pub proof fn lemma_reverse_reachable(g: Seq<Seq<usize>>, r: Seq<Seq<usize>>, a: int, b: int)
    requires
        r.len() == g.len(),
        forall|u: int, v: int| 0 <= u < g.len() && 0 <= v < g.len() ==> (#[trigger] has_edge(r, v, u)
            <==> #[trigger] has_edge(g, u, v)),
        reachable(r, a, b),
    ensures
        reachable(g, b, a),
{
    let p = choose|p: Seq<usize>| #[trigger] is_path(r, p) && p[0] == a && p.last() == b;
    let q = p.reverse();
    assert forall|i: int| 0 <= i < q.len() implies #[trigger] q[i] < g.len() by {
        assert(q[i] == p[p.len() - 1 - i]);
    }
    assert forall|i: int| 0 <= i < q.len() - 1 implies has_edge(g, #[trigger] q[i] as int, q[i + 1] as int) by {
        let j = p.len() - 2 - i;
        assert(q[i] == p[j + 1] && q[i + 1] == p[j]);
        assert(has_edge(r, p[j] as int, p[j + 1] as int));
        assert(p[j] < g.len() && p[j + 1] < g.len());
    }
    assert(is_path(g, q) && q[0] == b && q.last() == a);
}

/// A path reaches each of its nodes from its start, and its end from each of them.
pub proof fn lemma_path_split(g: Seq<Seq<usize>>, p: Seq<usize>, i: int)
    requires
        is_path(g, p),
        0 <= i < p.len(),
    ensures
        reachable(g, p[0] as int, p[i] as int),
        reachable(g, p[i] as int, p.last() as int),
{
    let a = p.subrange(0, i + 1);
    let b = p.subrange(i, p.len() as int);
    assert forall|k: int| 0 <= k < a.len() - 1 implies has_edge(g, #[trigger] a[k] as int, a[k + 1] as int) by {
        assert(a[k] == p[k] && a[k + 1] == p[k + 1]);
    }
    assert forall|k: int| 0 <= k < a.len() implies #[trigger] a[k] < g.len() by {
        assert(a[k] == p[k]);
    }
    assert forall|k: int| 0 <= k < b.len() - 1 implies has_edge(g, #[trigger] b[k] as int, b[k + 1] as int) by {
        assert(b[k] == p[i + k] && b[k + 1] == p[i + k + 1]);
    }
    assert forall|k: int| 0 <= k < b.len() implies #[trigger] b[k] < g.len() by {
        assert(b[k] == p[i + k]);
    }
    assert(is_path(g, a) && a[0] == p[0] && a.last() == p[i]);
    assert(is_path(g, b) && b[0] == p[i] && b.last() == p.last());
}

/// A path of the graph, walked backwards, is a path of the transposed graph.
pub proof fn lemma_reverse_path(g: Seq<Seq<usize>>, r: Seq<Seq<usize>>, p: Seq<usize>)
    requires
        r.len() == g.len(),
        forall|u: int, v: int| 0 <= u < g.len() && 0 <= v < g.len() ==> (#[trigger] has_edge(r, v, u)
            <==> #[trigger] has_edge(g, u, v)),
        is_path(g, p),
    ensures
        is_path(r, p.reverse()),
{
    let q = p.reverse();
    assert forall|i: int| 0 <= i < q.len() implies #[trigger] q[i] < r.len() by {
        assert(q[i] == p[p.len() - 1 - i]);
    }
    assert forall|i: int| 0 <= i < q.len() - 1 implies has_edge(r, #[trigger] q[i] as int, q[i + 1] as int) by {
        let j = p.len() - 2 - i;
        assert(q[i] == p[j + 1] && q[i + 1] == p[j]);
        assert(has_edge(g, p[j] as int, p[j + 1] as int));
        assert(p[j] < g.len() && p[j + 1] < g.len());
    }
}

/// The component the second pass collects from `node`, the node of highest
/// finishing position not yet in a component, is exactly the strongly
/// connected component of `node`, when the earlier components are.
proof fn lemma_new_component_exact(
    g: Seq<Seq<usize>>,
    r: Seq<Seq<usize>>,
    of: Seq<usize>,
    vf1: Seq<bool>,
    cs0: Seq<Seq<usize>>,
    v0: Seq<bool>,
    v1: Seq<bool>,
    rest: Seq<usize>,
    cv: Seq<usize>,
    node: usize,
    x: usize,
)
    requires
        wf_graph(g),
        r.len() == g.len(),
        forall|u: int, v: int| 0 <= u < g.len() && 0 <= v < g.len() ==> (#[trigger] has_edge(r, v, u)
            <==> #[trigger] has_edge(g, u, v)),
        x < g.len(),
        node < g.len(),
        v0.len() == g.len(),
        v1.len() == g.len(),
        !v0[node as int],
        v1[node as int],
        forall|k: int| 0 <= k < of.len() ==> #[trigger] of[k] < g.len(),
        rest.len() < of.len(),
        rest == of.subrange(0, rest.len() as int),
        of[rest.len() as int] == node,
        forall|k: int| rest.len() < k < of.len() ==> v0[#[trigger] of[k] as int],
        finish_order(g, of, vf1),
        forall|y: int| !#[trigger] gray(of, vf1, y),
        forall|y: usize| y < g.len() ==> v0[y as int] || #[trigger] rest.contains(y) || y == node,
        forall|y: usize| y < g.len() && v0[y as int] ==> #[trigger] covered(cs0, y),
        forall|c: int, y: usize|
            0 <= c < cs0.len() && y < g.len() ==> (#[trigger] cs0[c].contains(y) <==> strongly_connected(
                g,
                y as int,
                cs0[c][0] as int,
            )),
        forall|c: int, y: usize| 0 <= c < cs0.len() && #[trigger] cs0[c].contains(y) ==> y < g.len() && v0[y as int],
        forall|y: usize| #[trigger] cv.contains(y) <==> newly_marked(v0, v1, y),
        forall|y: usize| newly_marked(v0, v1, y) ==> reachable(r, node as int, y as int),
        marking_closed(r, v0, v1),
    ensures
        cv.contains(x) <==> strongly_connected(g, x as int, node as int),
{
    if cv.contains(x) {
        assert(newly_marked(v0, v1, x));
        lemma_reverse_reachable(g, r, node as int, x as int);
        if !reachable(g, node as int, x as int) {
            lemma_reachable_self(g, node);
            assert(x != node);
            assert(rest.contains(x));
            let i = choose|i: int| 0 <= i < rest.len() && rest[i] == x;
            let j = rest.len() as int;
            assert(of[i] == x) by {
                assert(rest[i] == of.subrange(0, rest.len() as int)[i]);
            }
            assert(reachable(g, of[i] as int, of[j] as int));
            assert(finishes_later(g, of, vf1, j, of[i] as int));
            if exists|y: int| #[trigger] gray(of, vf1, y) && strongly_connected(g, y, of[i] as int) {
                let y = choose|y: int| #[trigger] gray(of, vf1, y) && strongly_connected(g, y, of[i] as int);
                assert(!gray(of, vf1, y));
            }
            let k = choose|k: int| j < k < of.len() && #[trigger] strongly_connected(g, of[k] as int, of[i] as int);
            let w = of[k];
            assert(v0[w as int]);
            assert(covered(cs0, w));
            let c = choose|c: int| 0 <= c < cs0.len() && #[trigger] cs0[c].contains(w);
            assert(strongly_connected(g, w as int, cs0[c][0] as int));
            lemma_sc_trans(g, x as int, w as int, cs0[c][0] as int);
            assert(cs0[c].contains(x));
            assert(v0[x as int]);
        }
    }
    if strongly_connected(g, x as int, node as int) {
        let p = choose|p: Seq<usize>| #[trigger] is_path(g, p) && p[0] == x && p.last() == node;
        assert forall|i: int| 0 <= i < p.len() implies !v0[#[trigger] p[i] as int] by {
            lemma_path_split(g, p, i);
            let y = p[i];
            assert(y < g.len());
            if v0[y as int] {
                assert(covered(cs0, y));
                let c = choose|c: int| 0 <= c < cs0.len() && #[trigger] cs0[c].contains(y);
                assert(strongly_connected(g, y as int, cs0[c][0] as int));
                lemma_path_concat(g, node as int, x as int, y as int);
                assert(strongly_connected(g, node as int, y as int));
                lemma_sc_trans(g, node as int, y as int, cs0[c][0] as int);
                assert(cs0[c].contains(node));
            }
        }
        lemma_reverse_path(g, r, p);
        let q = p.reverse();
        assert(q[0] == node);
        assert forall|k: int| 0 <= k < q.len() implies !v0[#[trigger] q[k] as int] by {
            assert(q[k] == p[p.len() - 1 - k]);
        }
        lemma_white_path(r, v0, v1, q, q.len() - 1);
        assert(q[q.len() - 1] == x);
        assert(newly_marked(v0, v1, x));
    }
}

/// The strongly connected components of a graph on the nodes `0..graph.len()`,
/// found by Kosaraju's two passes: each component is listed from the node its
/// search started at, and holds exactly the nodes that reach that node and are
/// reached from it.
pub fn strongly_connected_components(graph: &Vec<Vec<usize>>) -> (components: Vec<Vec<usize>>)
    requires
        wf_graph(graph.deep_view()),
    ensures
        is_partition(components.deep_view(), graph@.len() as nat),
        forall|c: int, x: usize|
            0 <= c < components@.len() && x < graph@.len() ==> (#[trigger] components@[c]@.contains(x)
                <==> strongly_connected(graph.deep_view(), x as int, components@[c]@[0] as int)),
{
    let ghost g = graph.deep_view();
    let n = graph.len();
    let mut visited: Vec<bool> = Vec::new();
    let mut i: usize = 0;
    while i < n
        invariant
            0 <= i <= n,
            visited@.len() == i,
            forall|j: int| 0 <= j < i ==> !#[trigger] visited@[j],
        decreases n - i,
    {
        visited.push(false);
        i += 1;
    }
    let mut order: Vec<usize> = Vec::new();
    let mut node: usize = 0;
    while node < n
        invariant
            g == graph.deep_view(),
            wf_graph(g),
            n == g.len(),
            0 <= node <= n,
            visited@.len() == n,
            order@.no_duplicates(),
            forall|x: usize| #[trigger] order@.contains(x) <==> (x < n && visited@[x as int]),
            forall|x: int| 0 <= x < node ==> #[trigger] visited@[x],
            forall|x: int| !#[trigger] gray(order@, visited@, x),
            successors_marked(g, order@, visited@),
            finish_order(g, order@, visited@),
            gray_absorbs(g, order@, visited@),
        decreases n - node,
    {
        let ghost o0 = order@;
        let ghost v0 = visited@;
        proof {
            assert forall|x: usize| #[trigger] order@.contains(x) implies x < visited@.len() && visited@[x as int] by {}
        }
        dfs_postorder(node, graph, &mut visited, &mut order);
        proof {
            let seg = order@.subrange(o0.len() as int, order@.len() as int);
            assert(order@ =~= o0 + seg);
            assert forall|x: usize| o0.contains(x) implies !seg.contains(x) by {}
            lemma_no_duplicates_concat(o0, seg);
            assert forall|x: usize| #[trigger] order@.contains(x) <==> (x < n && visited@[x as int]) by {
                lemma_concat_contains(o0, seg, x);
                if o0.contains(x) {
                    assert(v0[x as int]);
                }
            }
            assert forall|x: int| 0 <= x < node + 1 implies #[trigger] visited@[x] by {
                if x < node {
                    assert(v0[x]);
                }
            }
        }
        node += 1;
    }
    let reversed = transpose_graph(graph);
    let ghost r = reversed.deep_view();
    let ghost of = order@;
    let ghost vf1 = visited@;
    proof {
        assert forall|x: int| !#[trigger] gray(of, vf1, x) by {
            if 0 <= x < vf1.len() && vf1[x] {
                assert(of.contains(x as usize));
            }
        }
        assert forall|k: int| 0 <= k < of.len() implies #[trigger] of[k] < n by {
            assert(of.contains(of[k]));
        }
        assert(order@ =~= of.subrange(0, order@.len() as int));
    }
    let mut visited2: Vec<bool> = Vec::new();
    let mut i: usize = 0;
    while i < n
        invariant
            0 <= i <= n,
            visited2@.len() == i,
            forall|j: int| 0 <= j < i ==> !#[trigger] visited2@[j],
        decreases n - i,
    {
        visited2.push(false);
        i += 1;
    }
    let mut components: Vec<Vec<usize>> = Vec::new();
    proof {
        assert forall|x: usize| x < n implies visited2@[x as int] || #[trigger] order@.contains(x) by {
            assert(visited@[x as int]);
        }
        assert(components.deep_view() =~= Seq::<Seq<usize>>::empty());
        assert forall|x: usize| #[trigger] order@.contains(x) implies x < n by {}
    }
    loop
        invariant
            g == graph.deep_view(),
            wf_graph(g),
            r == reversed.deep_view(),
            wf_graph(r),
            r.len() == g.len(),
            forall|u: int, v: int| 0 <= u < g.len() && 0 <= v < g.len() ==> (#[trigger] has_edge(r, v, u)
                <==> #[trigger] has_edge(g, u, v)),
            n == g.len(),
            visited2@.len() == n,
            of.no_duplicates(),
            forall|k: int| 0 <= k < of.len() ==> #[trigger] of[k] < n,
            order@.len() <= of.len(),
            order@ == of.subrange(0, order@.len() as int),
            forall|k: int| order@.len() <= k < of.len() ==> visited2@[#[trigger] of[k] as int],
            finish_order(g, of, vf1),
            forall|x: int| !#[trigger] gray(of, vf1, x),
            forall|x: usize| #[trigger] order@.contains(x) ==> x < n,
            forall|x: usize| x < n ==> visited2@[x as int] || #[trigger] order@.contains(x),
            forall|c: int| 0 <= c < components@.len() ==> #[trigger] components@[c]@.len() > 0,
            forall|c: int, k: int| 0 <= c < components@.len() && 0 <= k < components@[c]@.len()
                ==> #[trigger] components@[c]@[k] < n && visited2@[components@[c]@[k] as int],
            forall|c: int| 0 <= c < components@.len() ==> #[trigger] components@[c]@.no_duplicates(),
            forall|c1: int, c2: int, x: usize| 0 <= c1 < c2 < components@.len() ==> !(
                #[trigger] components@[c1]@.contains(x) && #[trigger] components@[c2]@.contains(x)),
            forall|x: usize| x < n && visited2@[x as int] ==> #[trigger] covered(components.deep_view(), x),
            forall|c: int| 0 <= c < components@.len() ==> #[trigger] components.deep_view()[c] == components@[c]@,
            components.deep_view().len() == components@.len(),
            forall|c: int, x: usize|
                0 <= c < components@.len() && x < n ==> (#[trigger] components@[c]@.contains(x)
                    <==> strongly_connected(g, x as int, components@[c]@[0] as int)),
        ensures
            forall|x: usize| x < n ==> visited2@[x as int],
            forall|c: int| 0 <= c < components@.len() ==> #[trigger] components@[c]@.len() > 0,
            forall|c: int, k: int| 0 <= c < components@.len() && 0 <= k < components@[c]@.len()
                ==> #[trigger] components@[c]@[k] < n && visited2@[components@[c]@[k] as int],
            forall|c: int| 0 <= c < components@.len() ==> #[trigger] components@[c]@.no_duplicates(),
            forall|c1: int, c2: int, x: usize| 0 <= c1 < c2 < components@.len() ==> !(
                #[trigger] components@[c1]@.contains(x) && #[trigger] components@[c2]@.contains(x)),
            forall|x: usize| x < n && visited2@[x as int] ==> #[trigger] covered(components.deep_view(), x),
            forall|c: int| 0 <= c < components@.len() ==> #[trigger] components.deep_view()[c] == components@[c]@,
            components.deep_view().len() == components@.len(),
            forall|c: int, x: usize|
                0 <= c < components@.len() && x < n ==> (#[trigger] components@[c]@.contains(x)
                    <==> strongly_connected(g, x as int, components@[c]@[0] as int)),
        decreases order@.len(),
    {
        let ghost o0 = order@;
        match order.pop() {
            None => {
                assert forall|x: usize| x < n implies visited2@[x as int] by {
                    if !visited2@[x as int] {
                        assert(order@.contains(x));
                    }
                }
                break ;
            },
            Some(node) => {
                let ghost m = o0.len() - 1;
                proof {
                    assert(o0[m] == node);
                    assert(of[m] == node);
                    assert(order@ =~= of.subrange(0, order@.len() as int));
                    assert(o0.contains(node)) by {
                        assert(o0[o0.len() - 1] == node);
                    }
                    assert forall|x: usize| x < n implies visited2@[x as int] || #[trigger] order@.contains(x)
                        || x == node by {
                        if o0.contains(x) && x != node {
                            let j = choose|j: int| 0 <= j < o0.len() && o0[j] == x;
                            assert(j < o0.len() - 1);
                            assert(order@[j] == x);
                        }
                    }
                    assert forall|x: usize| #[trigger] order@.contains(x) implies x < n by {
                        let j = choose|j: int| 0 <= j < order@.len() && order@[j] == x;
                        assert(o0[j] == x);
                        assert(o0.contains(x));
                    }
                }
                if visited2[node] {
                    proof {
                        assert forall|k: int| order@.len() <= k < of.len() implies visited2@[#[trigger] of[k] as int] by {
                            if k > m {
                                assert(visited2@[of[k] as int]);
                            }
                        }
                    }
                    continue ;
                }
                let ghost v0 = visited2@;
                let ghost cs0 = components.deep_view();
                let ghost comps0 = components@;
                let mut component: Vec<usize> = Vec::new();
                dfs_collect_component(node, &reversed, &mut visited2, &mut component);
                proof {
                    assert(component@.subrange(0, 0) =~= Seq::<usize>::empty());
                    assert(component@.subrange(0, component@.len() as int) =~= component@);
                }
                let ghost comps_before = components@;
                components.push(component);
                proof {
                    let cv = components@[comps_before.len() as int]@;
                    assert forall|c: int| 0 <= c < components@.len() implies #[trigger] components.deep_view()[c]
                        == components@[c]@ by {
                        if c < comps_before.len() {
                            assert(components@[c] == comps_before[c]);
                        }
                    }
                    assert forall|c: int| 0 <= c < components@.len() implies #[trigger] components.deep_view()[c]
                        == cs0.push(cv)[c] by {
                        if c < comps_before.len() {
                            assert(components@[c] == comps_before[c]);
                            assert(cs0[c] == comps_before[c]@);
                        }
                    }
                    assert(components.deep_view() =~= cs0.push(cv));
                    assert forall|c: int, k: int| 0 <= c < components@.len() && 0 <= k < components@[c]@.len()
                        implies #[trigger] components@[c]@[k] < n && visited2@[components@[c]@[k] as int] by {
                        if c < comps_before.len() {
                            assert(components@[c] == comps_before[c]);
                            assert(v0[comps_before[c]@[k] as int]);
                        } else {
                            assert(cv.contains(cv[k]));
                        }
                    }
                    assert forall|c1: int, c2: int, x: usize| 0 <= c1 < c2 < components@.len() implies !(
                        #[trigger] components@[c1]@.contains(x) && #[trigger] components@[c2]@.contains(x)) by {
                        if c2 == comps_before.len() {
                            assert(components@[c1] == comps_before[c1]);
                            if comps_before[c1]@.contains(x) {
                                let k = choose|k: int| 0 <= k < comps_before[c1]@.len() && comps_before[c1]@[k] == x;
                                assert(v0[x as int]);
                            }
                        } else {
                            assert(components@[c1] == comps_before[c1]);
                            assert(components@[c2] == comps_before[c2]);
                        }
                    }
                    assert forall|c: int| 0 <= c < components@.len() implies #[trigger] components@[c]@.no_duplicates() by {
                        if c < comps_before.len() {
                            assert(components@[c] == comps_before[c]);
                        }
                    }
                    assert forall|c: int| 0 <= c < components@.len() implies #[trigger] components@[c]@.len() > 0 by {
                        if c < comps_before.len() {
                            assert(components@[c] == comps_before[c]);
                        }
                    }
                    assert forall|x: usize| x < n && visited2@[x as int] implies #[trigger] covered(components.deep_view(), x) by {
                        if v0[x as int] {
                            assert(covered(cs0, x));
                            let c = choose|c: int| 0 <= c < cs0.len() && #[trigger] cs0[c].contains(x);
                            assert(cs0.push(cv)[c] == cs0[c]);
                            assert(components.deep_view()[c] == cs0[c]);
                        } else {
                            assert(cv.contains(x));
                            assert(components.deep_view()[comps_before.len() as int] == cv);
                        }
                    }
                    assert forall|k: int| order@.len() <= k < of.len() implies visited2@[#[trigger] of[k] as int] by {
                        if k > m {
                            assert(v0[of[k] as int]);
                        }
                    }
                    assert forall|c: int, x: usize|
                        0 <= c < components@.len() && x < n implies (#[trigger] components@[c]@.contains(x)
                            <==> strongly_connected(g, x as int, components@[c]@[0] as int)) by {
                        if c < comps_before.len() {
                            assert(components@[c] == comps_before[c]);
                        } else {
                            assert(cv[0] == node);
                            lemma_new_component_exact(
                                g, r, of, vf1, cs0, v0, visited2@, order@, cv, node, x,
                            );
                        }
                    }
                }
            },
        }
    }
    proof {
        assert forall|c: int, k: int|
            0 <= c < components.deep_view().len() && 0 <= k < components.deep_view()[c].len() implies #[trigger] components.deep_view()[c][k]
            < n by {
            assert(components.deep_view()[c] == components@[c]@);
        }
        assert forall|x: usize| x < n implies #[trigger] covered(components.deep_view(), x) by {}
        assert forall|c: int| 0 <= c < components.deep_view().len() implies #[trigger] components.deep_view()[c].len() > 0 by {
            assert(components.deep_view()[c] == components@[c]@);
        }
        assert forall|c: int| 0 <= c < components.deep_view().len() implies #[trigger] components.deep_view()[c].no_duplicates() by {
            assert(components.deep_view()[c] == components@[c]@);
        }
        assert forall|c1: int, c2: int, x: usize| 0 <= c1 < c2 < components.deep_view().len() implies !(
            #[trigger] components.deep_view()[c1].contains(x) && #[trigger] components.deep_view()[c2].contains(x)) by {
            assert(components.deep_view()[c1] == components@[c1]@);
            assert(components.deep_view()[c2] == components@[c2]@);
        }
    }
    components
}

} // verus!
