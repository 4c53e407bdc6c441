//! The dancing-links arena: a fixed-capacity graph of circularly
//! doubly-linked nodes addressed by integer indices, with the cover and
//! uncover primitives that remove a constraint column and put it back by
//! exact, reversible pointer surgery.
//!
//! The ghost state keeps, for every column, the ordered list of candidate
//! nodes still linked into its vertical ring, the ring order of the live
//! column headers, and a trail of the covers performed and not yet undone.
//! Every cover records the complete prior state on the trail; uncover is
//! proved to restore that state bit for bit.

use vstd::prelude::*;

use crate::layout::{
    cand_of, is_header, kind_of, is_row_node, node_head, node_pos, others, rnext, rprev, vmem, N_HEADERS,
    N_NODES, NODE_LO, ROOT,
};
use crate::layout::{lemma_head_range, lemma_rnext, lemma_vmem_inverse, lemma_vmem_of_node};

verus! {

/// One arena slot: four neighbor links and the owning column header.
#[derive(Clone, Copy, PartialEq, Eq, Structural, Debug)]
pub struct Node {
    pub left: usize,
    pub right: usize,
    pub up: usize,
    pub down: usize,
    pub head: usize,
}

/// The link state of the whole arena: every node and every column size.
#[verifier::ext_equal]
pub struct LState {
    pub nodes: Seq<Node>,
    pub sizes: Seq<usize>,
}

/// The `left` link of node `a`, as a mathematical integer.
pub open spec fn nl(nodes: Seq<Node>, a: int) -> int {
    nodes[a].left as int
}

/// The `right` link of node `a`.
pub open spec fn nr(nodes: Seq<Node>, a: int) -> int {
    nodes[a].right as int
}

/// The `up` link of node `a`.
pub open spec fn nu(nodes: Seq<Node>, a: int) -> int {
    nodes[a].up as int
}

/// The `down` link of node `a`.
pub open spec fn nd(nodes: Seq<Node>, a: int) -> int {
    nodes[a].down as int
}

/// The element of the cyclic ring `[h] + mem` at position `k`.
pub open spec fn ring_elem(h: int, mem: Seq<int>, k: int) -> int {
    if k == 0 {
        h
    } else {
        mem[k - 1]
    }
}

/// Ring position after `k` in a ring of `n` elements.
pub open spec fn ring_succ(n: int, k: int) -> int {
    if k + 1 == n {
        0
    } else {
        k + 1
    }
}

/// The vertical links agree with the ring `[h] + mem` at position `k`.
pub open spec fn vring_at(nodes: Seq<Node>, h: int, mem: Seq<int>, k: int) -> bool {
    let n = 1 + mem.len() as int;
    let a = ring_elem(h, mem, k);
    let b = ring_elem(h, mem, ring_succ(n, k));
    &&& 0 <= a < nodes.len()
    &&& 0 <= b < nodes.len()
    &&& nd(nodes, a) == b
    &&& nu(nodes, b) == a
}

/// The vertical ring of column `h` holds exactly the members `mem`, in order.
pub open spec fn vring_ok(nodes: Seq<Node>, h: int, mem: Seq<int>) -> bool {
    forall|k: int| 0 <= k < 1 + mem.len() ==> #[trigger] vring_at(nodes, h, mem, k)
}

/// The horizontal links agree with the ring `[ROOT] + headers` at position `k`.
pub open spec fn hring_at(nodes: Seq<Node>, headers: Seq<int>, k: int) -> bool {
    let n = 1 + headers.len() as int;
    let a = ring_elem(0, headers, k);
    let b = ring_elem(0, headers, ring_succ(n, k));
    &&& 0 <= a < nodes.len()
    &&& 0 <= b < nodes.len()
    &&& nr(nodes, a) == b
    &&& nl(nodes, b) == a
}

/// The header ring holds the root and exactly the live headers, in order.
pub open spec fn hring_ok(nodes: Seq<Node>, headers: Seq<int>) -> bool {
    &&& forall|k: int| 0 <= k < 1 + headers.len() ==> #[trigger] hring_at(nodes, headers, k)
    &&& headers.no_duplicates()
    &&& forall|k: int| 0 <= k < headers.len() ==> is_header(#[trigger] headers[k])
}

/// Column `h` is well formed: its ring matches `mem`, the members are
/// distinct candidate nodes of this column, and the size table agrees.
pub open spec fn col_ok(s: LState, h: int, mem: Seq<int>) -> bool {
    &&& vring_ok(s.nodes, h, mem)
    &&& mem.no_duplicates()
    &&& mem.len() <= 9
    &&& forall|k: int|
        0 <= k < mem.len() ==> is_row_node(#[trigger] mem[k]) && node_head(mem[k]) == h
    &&& 0 <= h < s.sizes.len()
    &&& s.sizes[h] == mem.len()
}

/// The fields that never change: every candidate node's horizontal links
/// and column follow the static layout, and headers name themselves.
pub open spec fn statics_ok(nodes: Seq<Node>) -> bool {
    &&& nodes.len() == N_NODES
    &&& forall|n: int|
        is_row_node(n) ==> {
            &&& nl(nodes, n) == rprev(n)
            &&& nr(nodes, n) == rnext(n)
            &&& (#[trigger] nodes[n]).head == node_head(n)
        }
    &&& forall|h: int| is_header(h) ==> (#[trigger] nodes[h]).head == h
}

/// `x` belongs to the territory of column `h`: its header or one of the
/// candidate nodes laid out in it.
pub open spec fn in_terr(x: int, h: int) -> bool {
    x == h || (is_row_node(x) && node_head(x) == h)
}

/// Both vertical links of node `n` stay in the territory of column `h`.
pub open spec fn terr_at(nodes: Seq<Node>, n: int, h: int) -> bool {
    in_terr(nu(nodes, n), h) && in_terr(nd(nodes, n), h)
}

/// Every vertical link stays within its own column's territory.  This
/// holds of unlinked nodes too, so it survives arbitrary pointer surgery
/// and pins down which columns a cover can touch.
pub open spec fn terr_ok(nodes: Seq<Node>) -> bool {
    &&& forall|n: int| is_row_node(n) ==> #[trigger] terr_at(nodes, n, node_head(n))
    &&& forall|h: int| is_header(h) ==> #[trigger] terr_at(nodes, h, h)
}

/// All columns are well formed against the member map `cols`.
pub open spec fn cols_wf(s: LState, cols: Map<int, Seq<int>>) -> bool {
    &&& statics_ok(s.nodes)
    &&& terr_ok(s.nodes)
    &&& s.sizes.len() == N_HEADERS + 1
    &&& forall|h: int| is_header(h) ==> cols.contains_key(h)
    &&& forall|h: int| is_header(h) ==> col_ok(s, h, #[trigger] cols[h])
}

/// The whole arena is well formed.
pub open spec fn arena_wf(s: LState, headers: Seq<int>, cols: Map<int, Seq<int>>) -> bool {
    &&& cols_wf(s, cols)
    &&& hring_ok(s.nodes, headers)
}

/// Node `n` is linked into the ring of a live column.
pub open spec fn live_node(headers: Seq<int>, cols: Map<int, Seq<int>>, n: int) -> bool {
    headers.contains(node_head(n)) && cols[node_head(n)].contains(n)
}

/// The other three nodes of `j`'s candidate are all live.
pub open spec fn others_live(headers: Seq<int>, cols: Map<int, Seq<int>>, j: int) -> bool {
    forall|t: int| 0 <= t < 3 ==> live_node(headers, cols, #[trigger] others(j)[t])
}

/// A member of a live column belongs to a fully live candidate: none of
/// its sibling nodes has been unlinked.  Covering preserves this, and it
/// is what entitles the search to cover a chosen candidate's remaining
/// columns one after the other.
pub open spec fn row_coherent(headers: Seq<int>, cols: Map<int, Seq<int>>) -> bool {
    forall|h: int, k: int|
        #![trigger cols[h][k]]
        headers.contains(h) && cols.contains_key(h) && 0 <= k < cols[h].len() ==> others_live(
            headers,
            cols,
            cols[h][k],
        )
}

/// One less, in the size table's type.
pub open spec fn sub1(x: usize) -> usize {
    (x - 1) as usize
}

/// One more, in the size table's type.
pub open spec fn add1(x: usize) -> usize {
    (x + 1) as usize
}

/// Unlinks node `j` from its column's vertical ring: its neighbors are
/// joined around it and the column's size drops by one.  `j`'s own links
/// are left untouched so the step can be reversed.
pub open spec fn s_unlink(s: LState, j: int) -> LState {
    let u = nu(s.nodes, j);
    let d = nd(s.nodes, j);
    let h = s.nodes[j].head as int;
    let n1 = s.nodes.update(u, Node { down: s.nodes[j].down, ..s.nodes[u] });
    let n2 = n1.update(d, Node { up: s.nodes[j].up, ..n1[d] });
    LState { nodes: n2, sizes: s.sizes.update(h, sub1(s.sizes[h])) }
}

/// Relinks node `j` into its column's vertical ring, using `j`'s own
/// untouched links to find its old neighbors.
pub open spec fn s_relink(s: LState, j: int) -> LState {
    let u = nu(s.nodes, j);
    let d = nd(s.nodes, j);
    let h = s.nodes[j].head as int;
    let n1 = s.nodes.update(u, Node { down: j as usize, ..s.nodes[u] });
    let n2 = n1.update(d, Node { up: j as usize, ..n1[d] });
    LState { nodes: n2, sizes: s.sizes.update(h, add1(s.sizes[h])) }
}

/// Unlinks header `h` from the horizontal header ring.
pub open spec fn s_unlink_head(s: LState, h: int) -> LState {
    let l = nl(s.nodes, h);
    let r = nr(s.nodes, h);
    let n1 = s.nodes.update(l, Node { right: s.nodes[h].right, ..s.nodes[l] });
    let n2 = n1.update(r, Node { left: s.nodes[h].left, ..n1[r] });
    LState { nodes: n2, sizes: s.sizes }
}

/// Relinks header `h` into the horizontal header ring.
pub open spec fn s_relink_head(s: LState, h: int) -> LState {
    let l = nl(s.nodes, h);
    let r = nr(s.nodes, h);
    let n1 = s.nodes.update(l, Node { right: h as usize, ..s.nodes[l] });
    let n2 = n1.update(r, Node { left: h as usize, ..n1[r] });
    LState { nodes: n2, sizes: s.sizes }
}

/// Unlinks the three sibling nodes of candidate node `j`, rightward.
pub open spec fn s_unlink_row(s: LState, j: int) -> LState {
    s_unlink(s_unlink(s_unlink(s, rnext(j)), rnext(rnext(j))), rnext(rnext(rnext(j))))
}

/// Relinks the three sibling nodes of candidate node `j`, leftward —
/// the exact reverse of `s_unlink_row`.
pub open spec fn s_relink_row(s: LState, j: int) -> LState {
    s_relink(s_relink(s_relink(s, rnext(rnext(rnext(j)))), rnext(rnext(j))), rnext(j))
}

/// Unlinks the sibling nodes of every member row, first to last.
pub open spec fn s_cover_rows(s: LState, mem: Seq<int>) -> LState
    decreases mem.len(),
{
    if mem.len() == 0 {
        s
    } else {
        s_cover_rows(s_unlink_row(s, mem[0]), mem.drop_first())
    }
}

/// Relinks the sibling nodes of every member row, last to first.
pub open spec fn s_uncover_rows(s: LState, mem: Seq<int>) -> LState
    decreases mem.len(),
{
    if mem.len() == 0 {
        s
    } else {
        s_relink_row(s_uncover_rows(s, mem.drop_first()), mem[0])
    }
}

/// The full effect of covering column `h` whose members are `mem`.
pub open spec fn s_cover(s: LState, mem: Seq<int>, h: int) -> LState {
    s_cover_rows(s_unlink_head(s, h), mem)
}

/// The full effect of uncovering column `h` whose members are `mem`.
pub open spec fn s_uncover(s: LState, mem: Seq<int>, h: int) -> LState {
    s_relink_head(s_uncover_rows(s, mem), h)
}

/// Removes the three sibling nodes of `j` from their columns' member lists.
pub open spec fn cc_row(cols: Map<int, Seq<int>>, j: int) -> Map<int, Seq<int>> {
    let o1 = others(j)[0];
    let o2 = others(j)[1];
    let o3 = others(j)[2];
    let c1 = cols.insert(node_head(o1), cols[node_head(o1)].remove_value(o1));
    let c2 = c1.insert(node_head(o2), c1[node_head(o2)].remove_value(o2));
    c2.insert(node_head(o3), c2[node_head(o3)].remove_value(o3))
}

/// The member map after covering the rows `mem`, first to last.
pub open spec fn cc_rows(cols: Map<int, Seq<int>>, mem: Seq<int>) -> Map<int, Seq<int>>
    decreases mem.len(),
{
    if mem.len() == 0 {
        cols
    } else {
        cc_rows(cc_row(cols, mem[0]), mem.drop_first())
    }
}

/// A record of one cover not yet undone: the column and the complete
/// state — links, sizes, ghost rings — from just before it.
pub struct Frame {
    pub h: int,
    pub pre: LState,
    pub pre_headers: Seq<int>,
    pub pre_cols: Map<int, Seq<int>>,
}

/// The recorded state of a frame was well formed, coherent, and its
/// column was live when covered.
pub open spec fn frame_ok(f: Frame) -> bool {
    &&& arena_wf(f.pre, f.pre_headers, f.pre_cols)
    &&& row_coherent(f.pre_headers, f.pre_cols)
    &&& f.pre_headers.contains(f.h)
}

/// The state a frame's cover produced.
pub open spec fn frame_next_state(f: Frame) -> LState {
    s_cover(f.pre, f.pre_cols[f.h], f.h)
}

/// The live header ring a frame's cover produced.
pub open spec fn frame_next_headers(f: Frame) -> Seq<int> {
    f.pre_headers.remove_value(f.h)
}

/// The member map a frame's cover produced.
pub open spec fn frame_next_cols(f: Frame) -> Map<int, Seq<int>> {
    cc_rows(f.pre_cols, f.pre_cols[f.h])
}

/// The trail explains the current state: each frame's cover leads exactly
/// to the next recorded state, and the last one leads to now.
pub open spec fn trail_ok(
    tr: Seq<Frame>,
    s: LState,
    headers: Seq<int>,
    cols: Map<int, Seq<int>>,
) -> bool
    decreases tr.len(),
{
    if tr.len() == 0 {
        true
    } else {
        let f = tr.last();
        &&& frame_ok(f)
        &&& s == frame_next_state(f)
        &&& headers == frame_next_headers(f)
        &&& cols == frame_next_cols(f)
        &&& trail_ok(tr.drop_last(), f.pre, f.pre_headers, f.pre_cols)
    }
}

/// The ring order of all 324 column headers in a fresh arena.
pub open spec fn full_headers() -> Seq<int> {
    Seq::new(324, |k: int| k + 1)
}

/// The member list of a column in a fresh arena: its nine candidates.
pub open spec fn init_members(h: int) -> Seq<int> {
    Seq::new(9, |p: int| vmem(h, p))
}

/// The member map of a fresh arena.
pub open spec fn init_cols() -> Map<int, Seq<int>> {
    Map::new(|h: int| is_header(h), |h: int| init_members(h))
}

/// The links of node `n` in a fresh arena.
pub open spec fn init_node(n: int) -> Node {
    if n == 0 {
        Node { left: 324, right: 1, up: 0, down: 0, head: 0 }
    } else if is_header(n) {
        Node {
            left: (n - 1) as usize,
            right: if n == 324 {
                0
            } else {
                (n + 1) as usize
            },
            up: vmem(n, 8) as usize,
            down: vmem(n, 0) as usize,
            head: n as usize,
        }
    } else {
        Node {
            left: rprev(n) as usize,
            right: rnext(n) as usize,
            up: if node_pos(n) == 0 {
                node_head(n) as usize
            } else {
                vmem(node_head(n), node_pos(n) - 1) as usize
            },
            down: if node_pos(n) == 8 {
                node_head(n) as usize
            } else {
                vmem(node_head(n), node_pos(n) + 1) as usize
            },
            head: node_head(n) as usize,
        }
    }
}

/// The complete link state of a fresh arena.
pub open spec fn init_lstate() -> LState {
    LState {
        nodes: Seq::new(N_NODES as nat, |n: int| init_node(n)),
        sizes: Seq::new(
            (N_HEADERS + 1) as nat,
            |h: int|
                if h == 0 {
                    0usize
                } else {
                    9usize
                },
        ),
    }
}

/// Removing a known position is removing by value, and it keeps the
/// list duplicate-free while dropping exactly that element.
pub proof fn lemma_remove_at(s: Seq<int>, k0: int)
    requires
        s.no_duplicates(),
        0 <= k0 < s.len(),
    ensures
        s.remove_value(s[k0]) == s.remove(k0),
        s.remove(k0).no_duplicates(),
        s.remove(k0).len() == s.len() - 1,
        forall|t: int|
            0 <= t < s.len() - 1 ==> s.remove(k0)[t] == (if t < k0 {
                s[t]
            } else {
                s[t + 1]
            }),
        forall|y: int| s.remove(k0).contains(y) <==> (s.contains(y) && y != s[k0]),
{
    assert(s[k0] == s[k0] && s.contains(s[k0]));
    s.index_of_first_ensures(s[k0]);
    let i = s.index_of_first(s[k0])->0;
    assert(0 <= i < s.len() && s[i] == s[k0]);
    assert(i == k0);
    let s2 = s.remove(k0);
    assert forall|t: int| 0 <= t < s.len() - 1 implies s2[t] == (if t < k0 {
        s[t]
    } else {
        s[t + 1]
    }) by {}
    assert forall|a: int, b: int| 0 <= a < b < s2.len() implies s2[a] != s2[b] by {
        let a2: int = if a < k0 {
            a
        } else {
            a + 1
        };
        let b2: int = if b < k0 {
            b
        } else {
            b + 1
        };
        assert(s2[a] == s[a2] && s2[b] == s[b2] && a2 != b2);
    }
    assert forall|y: int| s2.contains(y) implies s.contains(y) && y != s[k0] by {
        let t = choose|t: int| 0 <= t < s2.len() && s2[t] == y;
        let t2: int = if t < k0 {
            t
        } else {
            t + 1
        };
        assert(s[t2] == y && t2 != k0);
    }
    assert forall|y: int| s.contains(y) && y != s[k0] implies s2.contains(y) by {
        let t = choose|t: int| 0 <= t < s.len() && s[t] == y;
        if t < k0 {
            assert(s2[t] == y);
        } else {
            assert(t > k0);
            assert(s2[t - 1] == y);
        }
    }
}

/// In a duplicate-free ring `[h] + mem` of a column, distinct positions
/// hold distinct nodes.
pub proof fn lemma_ring_distinct(h: int, mem: Seq<int>, p1: int, p2: int)
    requires
        mem.no_duplicates(),
        forall|k: int| 0 <= k < mem.len() ==> is_row_node(#[trigger] mem[k]),
        !is_row_node(h),
        0 <= p1 < 1 + mem.len(),
        0 <= p2 < 1 + mem.len(),
        p1 != p2,
    ensures
        ring_elem(h, mem, p1) != ring_elem(h, mem, p2),
{
}

/// Unlinking one linked candidate node: the column's ring loses exactly
/// that member, every other ring and every other field is untouched,
/// and relinking at once restores the state bit for bit.
#[verifier::rlimit(100)]
#[verifier::spinoff_prover]
pub proof fn lemma_unlink_one(s: LState, cols: Map<int, Seq<int>>, o: int, k0: int)
    requires
        cols_wf(s, cols),
        is_row_node(o),
        0 <= k0 < cols[node_head(o)].len(),
        cols[node_head(o)][k0] == o,
    ensures
        cols_wf(
            s_unlink(s, o),
            cols.insert(node_head(o), cols[node_head(o)].remove_value(o)),
        ),
        s_relink(s_unlink(s, o), o) == s,
        s_unlink(s, o).nodes.len() == s.nodes.len(),
        s_unlink(s, o).sizes.len() == s.sizes.len(),
        forall|x: int|
            0 <= x < s.nodes.len() && !in_terr(x, node_head(o)) ==> s_unlink(s, o).nodes[x]
                == s.nodes[x],
        forall|x: int|
            0 <= x < s.nodes.len() ==> {
                &&& (#[trigger] s_unlink(s, o).nodes[x]).left == s.nodes[x].left
                &&& s_unlink(s, o).nodes[x].right == s.nodes[x].right
                &&& s_unlink(s, o).nodes[x].head == s.nodes[x].head
            },
        forall|h2: int|
            0 <= h2 < s.sizes.len() && h2 != node_head(o) ==> s_unlink(s, o).sizes[h2]
                == s.sizes[h2],
        s_unlink(s, o).nodes[o] == s.nodes[o],
{
    let h = node_head(o);
    let mem = cols[h];
    let n = 1 + mem.len() as int;
    let q = k0 + 1;
    assert(s.nodes[o].head == h);
    assert(vring_at(s.nodes, h, mem, q - 1));
    assert(vring_at(s.nodes, h, mem, q));
    let u = ring_elem(h, mem, q - 1);
    let d = ring_elem(h, mem, ring_succ(n, q));
    assert(nu(s.nodes, o) == u && nd(s.nodes, o) == d);
    assert(u != o && d != o) by {
        lemma_ring_distinct(h, mem, q - 1, q);
        lemma_ring_distinct(h, mem, ring_succ(n, q), q);
    }
    let s2 = s_unlink(s, o);
    assert(s2.nodes[o] == s.nodes[o]);
    assert(in_terr(u, h) && in_terr(d, h));

    // relinking restores the original state exactly
    let s3 = s_relink(s2, o);
    assert(s3.nodes =~= s.nodes) by {
        assert forall|x: int| 0 <= x < s.nodes.len() implies s3.nodes[x] == s.nodes[x] by {
            if x == u || x == d {
                assert(s.nodes[u].down == o as usize);
                assert(s.nodes[d].up == o as usize);
            }
        }
    }
    assert(s3.sizes =~= s.sizes) by {
        assert(s.sizes[h] == mem.len() >= 1);
    }
    assert(s3 =~= s);

    // the member list after the removal
    lemma_remove_at(mem, k0);
    let mem2 = mem.remove(k0);
    let cols2 = cols.insert(h, mem.remove_value(o));
    assert(cols2[h] == mem2);

    // only the up and down links of the two neighbors change
    assert forall|x: int|
        0 <= x < s.nodes.len() && !in_terr(x, h) implies s2.nodes[x] == s.nodes[x] by {}

    // the shrunk ring of column h is consistent
    assert forall|t: int| 0 <= t < 1 + mem2.len() implies #[trigger] vring_at(
        s2.nodes,
        h,
        mem2,
        t,
    ) by {
        let n2 = 1 + mem2.len() as int;
        if t < q - 1 {
            assert(vring_at(s.nodes, h, mem, t));
            let a = ring_elem(h, mem, t);
            let b = ring_elem(h, mem, ring_succ(n, t));
            if t + 1 < q {
                // an old pair away from the removal point
                assert(ring_elem(h, mem2, t) == a);
                assert(ring_elem(h, mem2, ring_succ(n2, t)) == b);
                lemma_ring_distinct(h, mem, t, q - 1);
                lemma_ring_distinct(h, mem, ring_succ(n, t), ring_succ(n, q));
            }
        } else if t == q - 1 {
            // the bridged pair around the removed node
            assert(ring_elem(h, mem2, t) == u);
            assert(ring_elem(h, mem2, ring_succ(n2, t)) == d);
        } else {
            // pairs after the removal point shift down by one
            assert(vring_at(s.nodes, h, mem, t + 1));
            assert(ring_elem(h, mem2, t) == ring_elem(h, mem, t + 1));
            assert(ring_elem(h, mem2, ring_succ(n2, t)) == ring_elem(h, mem, ring_succ(n, t + 1)));
            lemma_ring_distinct(h, mem, t + 1, q - 1);
            lemma_ring_distinct(h, mem, ring_succ(n, t + 1), ring_succ(n, q));
        }
    }

    // every other column's ring is untouched
    assert forall|h2: int| is_header(h2) implies col_ok(s2, h2, #[trigger] cols2[h2]) by {
        if h2 == h {
            assert(s2.sizes[h] == sub1(s.sizes[h]));
        } else {
            let mem_o = cols[h2];
            assert(col_ok(s, h2, mem_o));
            assert forall|t: int| 0 <= t < 1 + mem_o.len() implies #[trigger] vring_at(
                s2.nodes,
                h2,
                mem_o,
                t,
            ) by {
                assert(vring_at(s.nodes, h2, mem_o, t));
                let n_o = 1 + mem_o.len() as int;
                let a = ring_elem(h2, mem_o, t);
                let b = ring_elem(h2, mem_o, ring_succ(n_o, t));
                assert(in_terr(a, h2) && in_terr(b, h2));
                assert(a != u && a != d && b != u && b != d);
            }
        }
    }

    // statics and territory survive
    assert(statics_ok(s2.nodes));
    assert forall|x: int| is_row_node(x) implies #[trigger] terr_at(
        s2.nodes,
        x,
        node_head(x),
    ) by {
        assert(terr_at(s.nodes, x, node_head(x)));
        if x == u || x == d {
            assert(node_head(x) == h);
        }
    }
    assert forall|x: int| is_header(x) implies #[trigger] terr_at(s2.nodes, x, x) by {
        assert(terr_at(s.nodes, x, x));
        if x == u || x == d {
            assert(x == h);
        }
    }
}

/// Removing a value from a duplicate-free list drops exactly it.
pub proof fn lemma_remove_value_char(s: Seq<int>, x: int)
    requires
        s.no_duplicates(),
        s.contains(x),
    ensures
        s.remove_value(x).len() == s.len() - 1,
        forall|y: int| s.remove_value(x).contains(y) <==> (s.contains(y) && y != x),
        s.remove_value(x).no_duplicates(),
{
    let k0 = choose|k: int| 0 <= k < s.len() && s[k] == x;
    lemma_remove_at(s, k0);
}

/// In the duplicate-free header ring `[ROOT] + headers`, distinct
/// positions hold distinct nodes.
pub proof fn lemma_hring_distinct(headers: Seq<int>, p1: int, p2: int)
    requires
        headers.no_duplicates(),
        forall|k: int| 0 <= k < headers.len() ==> is_header(#[trigger] headers[k]),
        0 <= p1 < 1 + headers.len(),
        0 <= p2 < 1 + headers.len(),
        p1 != p2,
    ensures
        ring_elem(0, headers, p1) != ring_elem(0, headers, p2),
{
}

/// Unlinking a live header from the horizontal ring: the ring loses
/// exactly that header, no vertical link or size changes anywhere, and
/// relinking at once restores the state bit for bit.
pub proof fn lemma_unlink_head_step(s: LState, headers: Seq<int>, cols: Map<int, Seq<int>>, h: int)
    requires
        cols_wf(s, cols),
        hring_ok(s.nodes, headers),
        headers.contains(h),
    ensures
        is_header(h),
        cols_wf(s_unlink_head(s, h), cols),
        hring_ok(s_unlink_head(s, h).nodes, headers.remove_value(h)),
        headers.remove_value(h).len() == headers.len() - 1,
        forall|y: int|
            headers.remove_value(h).contains(y) <==> (headers.contains(y) && y != h),
        s_relink_head(s_unlink_head(s, h), h) == s,
        s_unlink_head(s, h).nodes.len() == s.nodes.len(),
        s_unlink_head(s, h).sizes == s.sizes,
        0 <= nl(s.nodes, h) < s.nodes.len(),
        0 <= nr(s.nodes, h) < s.nodes.len(),
        forall|x: int|
            0 <= x < s.nodes.len() ==> {
                &&& (#[trigger] s_unlink_head(s, h).nodes[x]).up == s.nodes[x].up
                &&& s_unlink_head(s, h).nodes[x].down == s.nodes[x].down
                &&& s_unlink_head(s, h).nodes[x].head == s.nodes[x].head
            },
        forall|x: int|
            is_row_node(x) && 0 <= x < s.nodes.len() ==> s_unlink_head(s, h).nodes[x]
                == s.nodes[x],
        s_unlink_head(s, h).nodes[h] == s.nodes[h],
{
    let k0 = choose|k: int| 0 <= k < headers.len() && headers[k] == h;
    let n = 1 + headers.len() as int;
    let q = k0 + 1;
    assert(hring_at(s.nodes, headers, q - 1));
    assert(hring_at(s.nodes, headers, q));
    let l = ring_elem(0, headers, q - 1);
    let r = ring_elem(0, headers, ring_succ(n, q));
    assert(nl(s.nodes, h) == l && nr(s.nodes, h) == r);
    assert(l != h && r != h) by {
        lemma_hring_distinct(headers, q - 1, q);
        lemma_hring_distinct(headers, ring_succ(n, q), q);
    }
    assert(!is_row_node(l) && !is_row_node(r));
    let s2 = s_unlink_head(s, h);
    assert(s2.nodes[h] == s.nodes[h]);

    // relinking restores the original state exactly
    let s3 = s_relink_head(s2, h);
    assert(s3.nodes =~= s.nodes) by {
        assert forall|x: int| 0 <= x < s.nodes.len() implies s3.nodes[x] == s.nodes[x] by {
            if x == l || x == r {
                assert(s.nodes[l].right == h as usize);
                assert(s.nodes[r].left == h as usize);
            }
        }
    }
    assert(s3 =~= s);

    lemma_remove_at(headers, k0);
    let headers2 = headers.remove(k0);
    assert(headers.remove_value(h) == headers2);

    // the shrunk header ring is consistent
    assert forall|t: int| 0 <= t < 1 + headers2.len() implies #[trigger] hring_at(
        s2.nodes,
        headers2,
        t,
    ) by {
        let n2 = 1 + headers2.len() as int;
        if t < q - 1 {
            assert(hring_at(s.nodes, headers, t));
            if t + 1 < q {
                assert(ring_elem(0, headers2, t) == ring_elem(0, headers, t));
                assert(ring_elem(0, headers2, ring_succ(n2, t)) == ring_elem(
                    0,
                    headers,
                    ring_succ(n, t),
                ));
                lemma_hring_distinct(headers, t, q - 1);
                lemma_hring_distinct(headers, ring_succ(n, t), ring_succ(n, q));
            }
        } else if t == q - 1 {
            assert(ring_elem(0, headers2, t) == l);
            assert(ring_elem(0, headers2, ring_succ(n2, t)) == r);
        } else {
            assert(hring_at(s.nodes, headers, t + 1));
            assert(ring_elem(0, headers2, t) == ring_elem(0, headers, t + 1));
            assert(ring_elem(0, headers2, ring_succ(n2, t)) == ring_elem(
                0,
                headers,
                ring_succ(n, t + 1),
            ));
            lemma_hring_distinct(headers, t + 1, q - 1);
            lemma_hring_distinct(headers, ring_succ(n, t + 1), ring_succ(n, q));
        }
    }

    // vertical structure is untouched
    assert forall|h2: int| is_header(h2) implies col_ok(s2, h2, #[trigger] cols[h2]) by {
        assert(col_ok(s, h2, cols[h2]));
        assert forall|t: int| 0 <= t < 1 + cols[h2].len() implies #[trigger] vring_at(
            s2.nodes,
            h2,
            cols[h2],
            t,
        ) by {
            assert(vring_at(s.nodes, h2, cols[h2], t));
        }
    }
    assert(statics_ok(s2.nodes));
    assert forall|x: int| is_row_node(x) implies #[trigger] terr_at(s2.nodes, x, node_head(x)) by {
        assert(terr_at(s.nodes, x, node_head(x)));
    }
    assert forall|x: int| is_header(x) implies #[trigger] terr_at(s2.nodes, x, x) by {
        assert(terr_at(s.nodes, x, x));
    }
}

/// The three sibling nodes of `j` are each linked into their columns.
pub open spec fn row_in_cols(cols: Map<int, Seq<int>>, j: int) -> bool {
    forall|t: int|
        0 <= t < 3 ==> cols[node_head(#[trigger] others(j)[t])].contains(others(j)[t])
}

/// `x` is a sibling of some row in `pref`.
pub open spec fn is_sibling_of(x: int, pref: Seq<int>) -> bool {
    exists|k: int| 0 <= k < pref.len() && (#[trigger] others(pref[k])).contains(x)
}

/// The facts the step lemmas need about a candidate node's siblings:
/// all are candidate nodes of the same candidate, with three distinct
/// column headers, none of them the node's own.
pub proof fn lemma_others_shape(j: int)
    requires
        is_row_node(j),
    ensures
        forall|t: int|
            0 <= t < 3 ==> {
                &&& is_row_node(#[trigger] others(j)[t])
                &&& cand_of(others(j)[t]) == cand_of(j)
                &&& node_head(others(j)[t]) != node_head(j)
                &&& others(j)[t] != j
            },
        forall|t1: int, t2: int|
            0 <= t1 < t2 < 3 ==> node_head(others(j)[t1]) != node_head(others(j)[t2])
                && others(j)[t1] != others(j)[t2],
        rprev(j) == others(j)[2],
        rprev(others(j)[2]) == others(j)[1],
        rprev(others(j)[1]) == others(j)[0],
        rprev(others(j)[0]) == j,
{
    lemma_rnext(j);
    lemma_rnext(rnext(j));
    lemma_rnext(rnext(rnext(j)));
    lemma_head_range(j);
    lemma_head_range(rnext(j));
    lemma_head_range(rnext(rnext(j)));
    lemma_head_range(rnext(rnext(rnext(j))));
}

/// Two distinct nodes of the same column belong to distinct candidates.
pub proof fn lemma_same_head_distinct_cands(x: int, y: int)
    requires
        is_row_node(x),
        is_row_node(y),
        x != y,
        node_head(x) == node_head(y),
    ensures
        cand_of(x) != cand_of(y),
{
    lemma_head_range(x);
    lemma_head_range(y);
    lemma_vmem_of_node(x);
    lemma_vmem_of_node(y);
}

/// Unlinking the three siblings of one candidate node: each sibling's
/// column loses exactly that sibling, everything else is untouched, and
/// relinking the three in reverse order restores the state bit for bit.
pub proof fn lemma_unlink_row_step(s: LState, cols: Map<int, Seq<int>>, j: int)
    requires
        cols_wf(s, cols),
        is_row_node(j),
        row_in_cols(cols, j),
    ensures
        cols_wf(s_unlink_row(s, j), cc_row(cols, j)),
        s_relink_row(s_unlink_row(s, j), j) == s,
        s_unlink_row(s, j).nodes.len() == s.nodes.len(),
        s_unlink_row(s, j).sizes.len() == s.sizes.len(),
        forall|x: int|
            0 <= x < s.nodes.len() ==> {
                &&& (#[trigger] s_unlink_row(s, j).nodes[x]).left == s.nodes[x].left
                &&& s_unlink_row(s, j).nodes[x].right == s.nodes[x].right
                &&& s_unlink_row(s, j).nodes[x].head == s.nodes[x].head
            },
        forall|x: int|
            0 <= x < s.nodes.len() && in_terr(x, node_head(j)) ==> s_unlink_row(s, j).nodes[x]
                == s.nodes[x],
        forall|h2: int|
            0 <= h2 < s.sizes.len() && h2 != node_head(others(j)[0]) && h2 != node_head(
                others(j)[1],
            ) && h2 != node_head(others(j)[2]) ==> s_unlink_row(s, j).sizes[h2] == s.sizes[h2],
        forall|h2: int, x: int|
            is_header(h2) ==> ((#[trigger] cc_row(cols, j)[h2].contains(x)) <==> (
            cols[h2].contains(x) && !others(j).contains(x))),
        cc_row(cols, j)[node_head(j)] == cols[node_head(j)],
{
    lemma_others_shape(j);
    let o1 = others(j)[0];
    let o2 = others(j)[1];
    let o3 = others(j)[2];
    let h1 = node_head(o1);
    let h2 = node_head(o2);
    let h3 = node_head(o3);
    let k1 = choose|k: int| 0 <= k < cols[h1].len() && cols[h1][k] == o1;
    lemma_unlink_one(s, cols, o1, k1);
    let s1 = s_unlink(s, o1);
    let cols1 = cols.insert(h1, cols[h1].remove_value(o1));
    let kk1 = choose|k: int| 0 <= k < cols[h1].len() && cols[h1][k] == o1;
    lemma_remove_at(cols[h1], kk1);
    let k2 = choose|k: int| 0 <= k < cols1[h2].len() && cols1[h2][k] == o2;
    lemma_unlink_one(s1, cols1, o2, k2);
    let s2 = s_unlink(s1, o2);
    let cols2 = cols1.insert(h2, cols1[h2].remove_value(o2));
    let kk2 = choose|k: int| 0 <= k < cols1[h2].len() && cols1[h2][k] == o2;
    lemma_remove_at(cols1[h2], kk2);
    let k3 = choose|k: int| 0 <= k < cols2[h3].len() && cols2[h3][k] == o3;
    lemma_unlink_one(s2, cols2, o3, k3);
    let s3 = s_unlink(s2, o3);
    let cols3 = cols2.insert(h3, cols2[h3].remove_value(o3));
    let kk3 = choose|k: int| 0 <= k < cols2[h3].len() && cols2[h3][k] == o3;
    lemma_remove_at(cols2[h3], kk3);
    assert(s3 == s_unlink_row(s, j));
    assert(cols3 =~= cc_row(cols, j));
    assert(s_relink(s3, o3) == s2);
    assert(s_relink(s2, o2) == s1);
    assert(s_relink(s1, o1) == s);
    assert(s_relink_row(s_unlink_row(s, j), j) == s);
    assert forall|hx: int, x: int| is_header(hx) implies ((#[trigger] cc_row(cols, j)[hx].contains(
        x,
    )) <==> (cols[hx].contains(x) && !others(j).contains(x))) by {
        assert(cc_row(cols, j)[hx] == cols3[hx]);
        if hx == h1 || hx == h2 || hx == h3 {
            assert(col_ok(s, hx, cols[hx]));
        } else {
            assert(cols3[hx] == cols[hx]);
            if cols[hx].contains(x) && others(j).contains(x) {
                let t = choose|t: int| 0 <= t < 3 && others(j)[t] == x;
                let kx = choose|k: int| 0 <= k < cols[hx].len() && cols[hx][k] == x;
                assert(node_head(cols[hx][kx]) == hx);
            }
        }
    }
    assert(cc_row(cols, j)[node_head(j)] =~= cols[node_head(j)]);
}

/// Folding one more row into a cover acts on the folded state.
pub proof fn lemma_cover_rows_snoc(s: LState, pref: Seq<int>, j: int)
    ensures
        s_cover_rows(s, pref.push(j)) == s_unlink_row(s_cover_rows(s, pref), j),
    decreases pref.len(),
{
    if pref.len() == 0 {
        assert(pref.push(j).drop_first() =~= Seq::<int>::empty());
        assert(pref.push(j)[0] == j);
        assert(s_cover_rows(s, pref.push(j)) == s_cover_rows(
            s_unlink_row(s, j),
            pref.push(j).drop_first(),
        ));
        assert(s_cover_rows(s_unlink_row(s, j), Seq::<int>::empty()) == s_unlink_row(s, j));
        assert(s_cover_rows(s, pref) == s);
    } else {
        assert(pref.push(j).drop_first() =~= pref.drop_first().push(j));
        assert(pref.push(j)[0] == pref[0]);
        lemma_cover_rows_snoc(s_unlink_row(s, pref[0]), pref.drop_first(), j);
        assert(s_cover_rows(s, pref.push(j)) == s_cover_rows(
            s_unlink_row(s, pref[0]),
            pref.drop_first().push(j),
        ));
        assert(s_cover_rows(s, pref) == s_cover_rows(s_unlink_row(s, pref[0]), pref.drop_first()));
    }
}

/// Folding one more row into the member-map update acts on the folded map.
pub proof fn lemma_cc_rows_snoc(cols: Map<int, Seq<int>>, pref: Seq<int>, j: int)
    ensures
        cc_rows(cols, pref.push(j)) == cc_row(cc_rows(cols, pref), j),
    decreases pref.len(),
{
    if pref.len() == 0 {
        assert(pref.push(j).drop_first() =~= Seq::<int>::empty());
        assert(pref.push(j)[0] == j);
        assert(cc_rows(cols, pref.push(j)) == cc_rows(cc_row(cols, j), pref.push(j).drop_first()));
        assert(cc_rows(cc_row(cols, j), Seq::<int>::empty()) == cc_row(cols, j));
        assert(cc_rows(cols, pref) == cols);
    } else {
        assert(pref.push(j).drop_first() =~= pref.drop_first().push(j));
        assert(pref.push(j)[0] == pref[0]);
        lemma_cc_rows_snoc(cc_row(cols, pref[0]), pref.drop_first(), j);
        assert(cc_rows(cols, pref.push(j)) == cc_rows(
            cc_row(cols, pref[0]),
            pref.drop_first().push(j),
        ));
        assert(cc_rows(cols, pref) == cc_rows(cc_row(cols, pref[0]), pref.drop_first()));
    }
}

/// Undoing rows last-to-first peels the last row first.
pub proof fn lemma_uncover_rows_snoc(s: LState, pref: Seq<int>, j: int)
    ensures
        s_uncover_rows(s, pref.push(j)) == s_uncover_rows(s_relink_row(s, j), pref),
    decreases pref.len(),
{
    if pref.len() == 0 {
        assert(pref.push(j).drop_first() =~= Seq::<int>::empty());
        assert(pref.push(j)[0] == j);
        assert(s_uncover_rows(s, pref.push(j)) == s_relink_row(
            s_uncover_rows(s, pref.push(j).drop_first()),
            j,
        ));
        assert(s_uncover_rows(s, Seq::<int>::empty()) == s);
        assert(s_uncover_rows(s_relink_row(s, j), pref) == s_relink_row(s, j));
    } else {
        assert(pref.push(j).drop_first() =~= pref.drop_first().push(j));
        assert(pref.push(j)[0] == pref[0]);
        lemma_uncover_rows_snoc(s, pref.drop_first(), j);
        assert(s_uncover_rows(s, pref.push(j)) == s_relink_row(
            s_uncover_rows(s, pref.drop_first().push(j)),
            pref[0],
        ));
        assert(s_uncover_rows(s_relink_row(s, j), pref) == s_relink_row(
            s_uncover_rows(s_relink_row(s, j), pref.drop_first()),
            pref[0],
        ));
    }
}

/// The shape of the member map the removal lemmas work over: every
/// column key is present, holds distinct candidate nodes of that column.
pub open spec fn cols_shape(cols: Map<int, Seq<int>>) -> bool {
    &&& forall|h2: int| is_header(h2) ==> cols.contains_key(h2)
    &&& forall|h2: int| is_header(h2) ==> (#[trigger] cols[h2]).no_duplicates()
    &&& forall|h2: int, k: int|
        #![trigger cols[h2][k]]
        is_header(h2) && 0 <= k < cols[h2].len() ==> is_row_node(cols[h2][k]) && node_head(
            cols[h2][k],
        ) == h2
}

/// Removing one row's siblings from the member map removes exactly those
/// three nodes, each from its own column, and keeps the map's shape.
#[verifier::rlimit(100)]
#[verifier::spinoff_prover]
pub proof fn lemma_cc_step_membership(cp: Map<int, Seq<int>>, j: int)
    requires
        cols_shape(cp),
        is_row_node(j),
    ensures
        cols_shape(cc_row(cp, j)),
        forall|h2: int, x: int|
            is_header(h2) ==> ((#[trigger] cc_row(cp, j)[h2].contains(x)) <==> (cp[h2].contains(x)
                && !others(j).contains(x))),
{
    lemma_others_shape(j);
    lemma_vmem_of_node(others(j)[0]);
    lemma_vmem_of_node(others(j)[1]);
    lemma_vmem_of_node(others(j)[2]);
    assert forall|h2: int, x: int| is_header(h2) implies ((#[trigger] cc_row(cp, j)[h2].contains(
        x,
    )) <==> (cp[h2].contains(x) && !others(j).contains(x))) by {
        let o1 = others(j)[0];
        let o2 = others(j)[1];
        let o3 = others(j)[2];
        if h2 == node_head(o1) || h2 == node_head(o2) || h2 == node_head(o3) {
            let o: int = if h2 == node_head(o1) {
                o1
            } else if h2 == node_head(o2) {
                o2
            } else {
                o3
            };
            if cp[h2].contains(o) {
                let ko = choose|k: int| 0 <= k < cp[h2].len() && cp[h2][k] == o;
                lemma_remove_at(cp[h2], ko);
            } else {
                assert(cp[h2].remove_value(o) == cp[h2]) by {
                    cp[h2].index_of_first_ensures(o);
                }
            }
            // the other two siblings live in other columns
            assert forall|x2: int|
                cp[h2].contains(x2) && others(j).contains(x2) implies x2 == o by {
                let kx = choose|k: int| 0 <= k < cp[h2].len() && cp[h2][k] == x2;
                assert(node_head(cp[h2][kx]) == h2);
            }
        } else {
            assert(cc_row(cp, j)[h2] == cp[h2]);
            if cp[h2].contains(x) && others(j).contains(x) {
                let kc = choose|k: int| 0 <= k < cp[h2].len() && cp[h2][k] == x;
                assert(node_head(cp[h2][kc]) == h2);
            }
        }
    }
    assert forall|h2: int| is_header(h2) implies (#[trigger] cc_row(cp, j)[h2]).no_duplicates()
        && cc_row(cp, j).contains_key(h2) by {
        let o1 = others(j)[0];
        let o2 = others(j)[1];
        let o3 = others(j)[2];
        if h2 == node_head(o1) || h2 == node_head(o2) || h2 == node_head(o3) {
            let o: int = if h2 == node_head(o1) {
                o1
            } else if h2 == node_head(o2) {
                o2
            } else {
                o3
            };
            lemma_remove_value_no_dup(cp[h2], o);
        }
    }
    assert forall|h2: int, k: int|
        #![trigger cc_row(cp, j)[h2][k]]
        is_header(h2) && 0 <= k < cc_row(cp, j)[h2].len() implies is_row_node(cc_row(cp, j)[h2][k])
        && node_head(cc_row(cp, j)[h2][k]) == h2 by {
        let x = cc_row(cp, j)[h2][k];
        assert(cc_row(cp, j)[h2].contains(x));
        assert(cp[h2].contains(x));
        let kc = choose|kc: int| 0 <= kc < cp[h2].len() && cp[h2][kc] == x;
        assert(node_head(cp[h2][kc]) == h2);
    }
}

/// Covering a prefix of rows removes from the member map exactly the
/// siblings of those rows, and keeps the map's shape.
#[verifier::rlimit(100)]
#[verifier::spinoff_prover]
pub proof fn lemma_cc_rows_membership(cols1: Map<int, Seq<int>>, mem: Seq<int>, m: int)
    requires
        cols_shape(cols1),
        forall|k: int| 0 <= k < mem.len() ==> is_row_node(#[trigger] mem[k]),
        0 <= m <= mem.len(),
    ensures
        cols_shape(cc_rows(cols1, mem.take(m))),
        forall|h2: int, x: int|
            is_header(h2) ==> ((#[trigger] cc_rows(cols1, mem.take(m))[h2].contains(x)) <==> (
            cols1[h2].contains(x) && !is_sibling_of(x, mem.take(m)))),
    decreases m,
{
    if m == 0 {
        assert(mem.take(0) =~= Seq::<int>::empty());
        assert(cc_rows(cols1, Seq::<int>::empty()) == cols1);
        assert(forall|x: int| !is_sibling_of(x, Seq::<int>::empty()));
    } else {
        lemma_cc_rows_membership(cols1, mem, m - 1);
        let p = mem.take(m - 1);
        let j = mem[m - 1];
        assert(mem.take(m) =~= p.push(j));
        let cp = cc_rows(cols1, p);
        lemma_cc_rows_snoc(cols1, p, j);
        assert(cc_rows(cols1, mem.take(m)) == cc_row(cp, j));
        lemma_cc_step_membership(cp, j);
        assert forall|h2: int, x: int| is_header(h2) implies ((#[trigger] cc_rows(
            cols1,
            mem.take(m),
        )[h2].contains(x)) <==> (cols1[h2].contains(x) && !is_sibling_of(x, mem.take(m)))) by {
            if cc_row(cp, j)[h2].contains(x) {
                if is_sibling_of(x, mem.take(m)) {
                    let k = choose|k: int|
                        0 <= k < mem.take(m).len() && (#[trigger] others(mem.take(m)[k])).contains(
                            x,
                        );
                    if k < m - 1 {
                        assert(others(p[k]).contains(x));
                        assert(is_sibling_of(x, p));
                    } else {
                        assert(mem.take(m)[k] == j);
                    }
                }
            }
            if cols1[h2].contains(x) && !is_sibling_of(x, mem.take(m)) {
                assert forall|k: int| 0 <= k < p.len() implies !(#[trigger] others(
                    p[k],
                )).contains(x) by {
                    if others(p[k]).contains(x) {
                        assert(mem.take(m)[k] == p[k]);
                    }
                }
                assert(!is_sibling_of(x, p));
                assert(cp[h2].contains(x));
                if others(j).contains(x) {
                    assert(mem.take(m)[m - 1] == j);
                }
            }
        }
    }
}

/// The covered column's own member list never changes while its rows'
/// siblings are being unlinked from other columns.
pub proof fn lemma_cc_h_stable(cols1: Map<int, Seq<int>>, mem: Seq<int>, h: int, m: int)
    requires
        is_header(h),
        forall|k: int|
            0 <= k < mem.len() ==> is_row_node(#[trigger] mem[k]) && node_head(mem[k]) == h,
        0 <= m <= mem.len(),
    ensures
        cc_rows(cols1, mem.take(m)).contains_key(h) == cols1.contains_key(h),
        cols1.contains_key(h) ==> cc_rows(cols1, mem.take(m))[h] == cols1[h],
    decreases m,
{
    if m == 0 {
        assert(mem.take(0) =~= Seq::<int>::empty());
        assert(cc_rows(cols1, Seq::<int>::empty()) == cols1);
    } else {
        lemma_cc_h_stable(cols1, mem, h, m - 1);
        let p = mem.take(m - 1);
        let j = mem[m - 1];
        assert(mem.take(m) =~= p.push(j));
        lemma_cc_rows_snoc(cols1, p, j);
        lemma_others_shape(j);
        assert(cc_rows(cols1, mem.take(m)) == cc_row(cc_rows(cols1, p), j));
    }
}

/// Removing a value keeps a duplicate-free list duplicate-free.
pub proof fn lemma_remove_value_no_dup(s: Seq<int>, x: int)
    requires
        s.no_duplicates(),
    ensures
        s.remove_value(x).no_duplicates(),
{
    s.index_of_first_ensures(x);
    if s.contains(x) {
        let i = s.index_of_first(x)->0;
        lemma_remove_at(s, i);
    }
}

/// Covering the first `m` member rows of a column keeps the arena's
/// columns well formed, leaves the column's own territory and every
/// horizontal link untouched, and is undone exactly by uncovering the
/// same prefix.
#[verifier::rlimit(100)]
#[verifier::spinoff_prover]
pub proof fn lemma_cover_rows_steps(
    s1: LState,
    cols1: Map<int, Seq<int>>,
    mem: Seq<int>,
    h: int,
    m: int,
)
    requires
        cols_wf(s1, cols1),
        is_header(h),
        mem.no_duplicates(),
        forall|k: int|
            0 <= k < mem.len() ==> is_row_node(#[trigger] mem[k]) && node_head(mem[k]) == h,
        forall|k: int| 0 <= k < mem.len() ==> row_in_cols(cols1, #[trigger] mem[k]),
        0 <= m <= mem.len(),
    ensures
        cols_wf(s_cover_rows(s1, mem.take(m)), cc_rows(cols1, mem.take(m))),
        s_uncover_rows(s_cover_rows(s1, mem.take(m)), mem.take(m)) == s1,
        s_cover_rows(s1, mem.take(m)).nodes.len() == s1.nodes.len(),
        s_cover_rows(s1, mem.take(m)).sizes.len() == s1.sizes.len(),
        forall|x: int|
            0 <= x < s1.nodes.len() ==> {
                &&& (#[trigger] s_cover_rows(s1, mem.take(m)).nodes[x]).left == s1.nodes[x].left
                &&& s_cover_rows(s1, mem.take(m)).nodes[x].right == s1.nodes[x].right
                &&& s_cover_rows(s1, mem.take(m)).nodes[x].head == s1.nodes[x].head
            },
        forall|x: int|
            0 <= x < s1.nodes.len() && in_terr(x, h) ==> s_cover_rows(s1, mem.take(m)).nodes[x]
                == s1.nodes[x],
        s_cover_rows(s1, mem.take(m)).sizes[h] == s1.sizes[h],
    decreases m,
{
    assert forall|h2: int, k: int|
        #![trigger cols1[h2][k]]
        is_header(h2) && 0 <= k < cols1[h2].len() implies is_row_node(cols1[h2][k]) && node_head(
        cols1[h2][k],
    ) == h2 by {
        assert(col_ok(s1, h2, cols1[h2]));
    }
    if m == 0 {
        assert(mem.take(0) =~= Seq::<int>::empty());
        assert(cc_rows(cols1, Seq::<int>::empty()) == cols1);
    } else {
        lemma_cover_rows_steps(s1, cols1, mem, h, m - 1);
        lemma_cols_shape_of_wf(s1, cols1);
        lemma_cc_ready(cols1, mem, h, m - 1, m - 1);
        let p = mem.take(m - 1);
        let j = mem[m - 1];
        assert(mem.take(m) =~= p.push(j));
        let xp = s_cover_rows(s1, p);
        let cp = cc_rows(cols1, p);
        lemma_cover_rows_snoc(s1, p, j);
        lemma_cc_rows_snoc(cols1, p, j);
        lemma_others_shape(j);
        assert(row_in_cols(cp, j));
        lemma_unlink_row_step(xp, cp, j);
        assert(s_cover_rows(s1, mem.take(m)) == s_unlink_row(xp, j));
        assert(cc_rows(cols1, mem.take(m)) == cc_row(cp, j));
        lemma_uncover_rows_snoc(s_unlink_row(xp, j), p, j);
        assert(s_uncover_rows(s_unlink_row(xp, j), mem.take(m)) == s_uncover_rows(
            s_relink_row(s_unlink_row(xp, j), j),
            p,
        ));
        assert(s_relink_row(s_unlink_row(xp, j), j) == xp);
        assert forall|x: int|
            0 <= x < s1.nodes.len() && in_terr(x, h) implies s_cover_rows(
            s1,
            mem.take(m),
        ).nodes[x] == s1.nodes[x] by {
            assert(!in_terr(x, node_head(j)) || s_unlink_row(xp, j).nodes[x] == xp.nodes[x]);
        }
    }
}

/// Two distinct nodes of the same candidate are siblings of one another.
pub proof fn lemma_same_cand_sibling(x: int, y: int)
    requires
        is_row_node(x),
        is_row_node(y),
        x != y,
        cand_of(x) == cand_of(y),
    ensures
        others(y).contains(x),
        others(x).contains(y),
{
    lemma_vmem_of_node(x);
    lemma_vmem_of_node(y);
    lemma_others_shape(x);
    lemma_others_shape(y);
    lemma_rnext(x);
    lemma_rnext(rnext(x));
    lemma_rnext(rnext(rnext(x)));
    lemma_rnext(y);
    lemma_rnext(rnext(y));
    lemma_rnext(rnext(rnext(y)));
    assert(x == 325 + 4 * cand_of(x) + kind_of(x)) by {
        vstd::arithmetic::div_mod::lemma_fundamental_div_mod(x - 325, 4);
    }
    assert(y == 325 + 4 * cand_of(y) + kind_of(y)) by {
        vstd::arithmetic::div_mod::lemma_fundamental_div_mod(y - 325, 4);
    }
    let t: int = if kind_of(x) > kind_of(y) {
        kind_of(x) - kind_of(y) - 1
    } else {
        kind_of(x) - kind_of(y) + 3
    };
    assert(others(y)[t] == x);
    let t2: int = if kind_of(y) > kind_of(x) {
        kind_of(y) - kind_of(x) - 1
    } else {
        kind_of(y) - kind_of(x) + 3
    };
    assert(others(x)[t2] == y);
}

/// One membership question about the member map after a cover: a node
/// is still listed exactly when it was listed and is no covered row's
/// sibling.
pub proof fn lemma_cc_member_one(cols: Map<int, Seq<int>>, mem: Seq<int>, h2: int, x: int)
    requires
        cols_shape(cols),
        forall|k: int| 0 <= k < mem.len() ==> is_row_node(#[trigger] mem[k]),
        is_header(h2),
    ensures
        cc_rows(cols, mem)[h2].contains(x) <==> (cols[h2].contains(x) && !is_sibling_of(x, mem)),
        cc_rows(cols, mem).contains_key(h2),
{
    lemma_cc_rows_membership(cols, mem, mem.len() as int);
    assert(mem.take(mem.len() as int) =~= mem);
}

/// One sibling of a surviving candidate stays live through a cover.
#[verifier::rlimit(100)]
#[verifier::spinoff_prover]
pub proof fn lemma_cover_coherent_sib(
    s: LState,
    headers: Seq<int>,
    cols: Map<int, Seq<int>>,
    h: int,
    j: int,
    o: int,
)
    requires
        arena_wf(s, headers, cols),
        headers.contains(h),
        is_header(h),
        is_row_node(j),
        is_row_node(o),
        o != j,
        cand_of(o) == cand_of(j),
        node_head(j) != h,
        !is_sibling_of(j, cols[h]),
        headers.contains(node_head(o)),
        cols[node_head(o)].contains(o),
    ensures
        live_node(headers.remove_value(h), cc_rows(cols, cols[h]), o),
{
    let mem = cols[h];
    let h2 = node_head(j);
    let oh = node_head(o);
    assert(col_ok(s, h, mem));
    lemma_cols_shape_of_wf(s, cols);
    lemma_remove_value_char(headers, h);
    let headers2 = headers.remove_value(h);
    let cc = cc_rows(cols, mem);
    // o's column is not the covered one: else j itself would have been
    // unlinked as o's sibling
    if oh == h {
        let ko = choose|ko: int| 0 <= ko < mem.len() && mem[ko] == o;
        assert(mem[ko] == o);
        assert(others(o).contains(j)) by {
            lemma_same_cand_sibling(j, o);
        }
        assert(is_sibling_of(j, mem));
    }
    assert(oh != h);
    assert(headers2.contains(oh));
    // o itself was no sibling of a member row
    if is_sibling_of(o, mem) {
        let k3 = choose|k3: int| 0 <= k3 < mem.len() && (#[trigger] others(mem[k3])).contains(o);
        lemma_others_shape(mem[k3]);
        assert(cand_of(o) == cand_of(mem[k3]));
        assert(node_head(mem[k3]) == h);
        assert(j != mem[k3]);
        lemma_same_cand_sibling(j, mem[k3]);
        assert(is_sibling_of(j, mem));
    }
    lemma_cc_member_one(cols, mem, oh, o);
    assert(cc[oh].contains(o));
}

/// Coherence survives a cover, one candidate at a time: a candidate
/// still linked in a live column after the cover lost none of its
/// siblings.
#[verifier::rlimit(100)]
#[verifier::spinoff_prover]
pub proof fn lemma_cover_coherent_one(
    s: LState,
    headers: Seq<int>,
    cols: Map<int, Seq<int>>,
    h: int,
    j: int,
)
    requires
        arena_wf(s, headers, cols),
        row_coherent(headers, cols),
        headers.contains(h),
        is_header(h),
        is_row_node(j),
        node_head(j) != h,
        headers.contains(node_head(j)),
        cols[node_head(j)].contains(j),
        !is_sibling_of(j, cols[h]),
    ensures
        others_live(headers.remove_value(h), cc_rows(cols, cols[h]), j),
{
    let mem = cols[h];
    let h2 = node_head(j);
    let k2 = choose|k2: int| 0 <= k2 < cols[h2].len() && cols[h2][k2] == j;
    assert(cols[h2][k2] == j);
    assert(others_live(headers, cols, j));
    lemma_others_shape(j);
    assert forall|t: int| 0 <= t < 3 implies live_node(
        headers.remove_value(h),
        cc_rows(cols, cols[h]),
        #[trigger] others(j)[t],
    ) by {
        let o = others(j)[t];
        assert(live_node(headers, cols, o));
        lemma_cover_coherent_sib(s, headers, cols, h, j, o);
    }
}

/// Coherence survives a cover: every candidate still linked in a live
/// column lost none of its siblings.
#[verifier::rlimit(100)]
#[verifier::spinoff_prover]
pub proof fn lemma_cover_coherent(s: LState, headers: Seq<int>, cols: Map<int, Seq<int>>, h: int)
    requires
        arena_wf(s, headers, cols),
        row_coherent(headers, cols),
        headers.contains(h),
        is_header(h),
    ensures
        row_coherent(headers.remove_value(h), cc_rows(cols, cols[h])),
{
    let mem = cols[h];
    assert(col_ok(s, h, mem));
    lemma_cols_shape_of_wf(s, cols);
    lemma_remove_value_char(headers, h);
    let headers2 = headers.remove_value(h);
    let cc = cc_rows(cols, mem);
    assert forall|h2: int, k: int|
        #![trigger cc[h2][k]]
        headers2.contains(h2) && cc.contains_key(h2) && 0 <= k < cc[h2].len() implies others_live(
        headers2,
        cc,
        cc[h2][k],
    ) by {
        let j = cc[h2][k];
        assert(cc[h2].contains(j));
        assert(headers.contains(h2));
        let kh = choose|kh: int| 0 <= kh < headers.len() && headers[kh] == h2;
        assert(is_header(headers[kh]));
        lemma_cc_member_one(cols, mem, h2, j);
        assert(cols[h2].contains(j) && !is_sibling_of(j, mem));
        let k2 = choose|k2: int| 0 <= k2 < cols[h2].len() && cols[h2][k2] == j;
        assert(cols[h2][k2] == j);
        assert(is_row_node(j) && node_head(j) == h2) by {
            assert(col_ok(s, h2, cols[h2]));
        }
        assert(h2 != h);
        assert(headers.contains(h2));
        lemma_cover_coherent_one(s, headers, cols, h, j);
    }
}

/// Covering a live column of a well-formed, coherent arena yields a
/// well-formed, coherent arena again, and uncovering it restores the
/// original state exactly — the round-trip identity of the engine.
#[verifier::rlimit(100)]
#[verifier::spinoff_prover]
pub proof fn lemma_cover_facts(s: LState, headers: Seq<int>, cols: Map<int, Seq<int>>, h: int)
    requires
        arena_wf(s, headers, cols),
        row_coherent(headers, cols),
        headers.contains(h),
    ensures
        is_header(h),
        arena_wf(s_cover(s, cols[h], h), headers.remove_value(h), cc_rows(cols, cols[h])),
        row_coherent(headers.remove_value(h), cc_rows(cols, cols[h])),
        s_uncover(s_cover(s, cols[h], h), cols[h], h) == s,
        s_cover(s, cols[h], h).nodes.len() == s.nodes.len(),
        s_cover(s, cols[h], h).sizes.len() == s.sizes.len(),
        forall|x: int|
            0 <= x < s.nodes.len() && in_terr(x, h) ==> s_cover(s, cols[h], h).nodes[x]
                == s.nodes[x],
        s_cover(s, cols[h], h).sizes[h] == s.sizes[h],
        forall|y: int|
            headers.remove_value(h).contains(y) <==> (headers.contains(y) && y != h),
        headers.remove_value(h).len() == headers.len() - 1,
{
    assert(is_header(h)) by {
        let k = choose|k: int| 0 <= k < headers.len() && headers[k] == h;
        assert(headers[k] == h);
    }
    let mem = cols[h];
    assert(col_ok(s, h, mem));
    // every member row is fully live, so its siblings are linked
    assert forall|k: int| 0 <= k < mem.len() implies row_in_cols(cols, #[trigger] mem[k]) by {
        assert(others_live(headers, cols, cols[h][k]));
    }
    lemma_unlink_head_step(s, headers, cols, h);
    let s1 = s_unlink_head(s, h);
    let headers2 = headers.remove_value(h);
    lemma_cover_rows_steps(s1, cols, mem, h, mem.len() as int);
    assert(mem.take(mem.len() as int) =~= mem);
    let sc = s_cover(s, mem, h);
    let cc = cc_rows(cols, mem);
    assert(cols_wf(sc, cc));
    // the horizontal ring only lost h; row folds never touch it
    assert forall|t: int| 0 <= t < 1 + headers2.len() implies #[trigger] hring_at(
        sc.nodes,
        headers2,
        t,
    ) by {
        assert(hring_at(s1.nodes, headers2, t));
    }
    assert(hring_ok(sc.nodes, headers2));
    // the full uncover undoes the full cover
    assert(s_uncover_rows(sc, mem) == s1);
    assert(s_uncover(sc, mem, h) == s_relink_head(s1, h));
    assert(s_uncover(sc, mem, h) == s);
    lemma_cover_coherent(s, headers, cols, h);
}

/// What one unlink step needs of a node in a given state: index bounds
/// and a positive size to decrement.
pub open spec fn can_unlink(s: LState, j: int) -> bool {
    &&& s.nodes.len() == N_NODES
    &&& s.sizes.len() == N_HEADERS + 1
    &&& 0 <= j < N_NODES
    &&& (s.nodes[j].up as int) < N_NODES
    &&& (s.nodes[j].down as int) < N_NODES
    &&& (s.nodes[j].head as int) < N_HEADERS + 1
    &&& s.sizes[s.nodes[j].head as int] >= 1
}

/// What one relink step needs of a node in a given state: index bounds
/// and headroom for the size increment.
pub open spec fn can_relink(s: LState, j: int) -> bool {
    &&& s.nodes.len() == N_NODES
    &&& s.sizes.len() == N_HEADERS + 1
    &&& 0 <= j < N_NODES
    &&& (s.nodes[j].up as int) < N_NODES
    &&& (s.nodes[j].down as int) < N_NODES
    &&& (s.nodes[j].head as int) < N_HEADERS + 1
    &&& s.sizes[s.nodes[j].head as int] < 100
}

/// The facts that stay fixed while a cover's row walk (or its reverse)
/// is in progress: `s1` is the state after the header unlink, `s0` the
/// state before it, `mem` the covered column's member rows.
pub open spec fn cover_ctx(
    s1: LState,
    s0: LState,
    cols0: Map<int, Seq<int>>,
    mem: Seq<int>,
    h: int,
) -> bool {
    &&& cols_wf(s1, cols0)
    &&& is_header(h)
    &&& mem.no_duplicates()
    &&& mem.len() <= 9
    &&& forall|k: int|
        0 <= k < mem.len() ==> is_row_node(#[trigger] mem[k]) && node_head(mem[k]) == h
    &&& forall|k: int| 0 <= k < mem.len() ==> row_in_cols(cols0, #[trigger] mem[k])
    &&& col_ok(s0, h, mem)
    &&& cols0.contains_key(h)
    &&& cols0[h] == mem
    &&& forall|x: int| 0 <= x < N_NODES && in_terr(x, h) ==> s1.nodes[x] == s0.nodes[x]
    &&& s0.nodes.len() == N_NODES
    &&& s0.sizes.len() == N_HEADERS + 1
    &&& s1.nodes.len() == N_NODES
    &&& s1.sizes.len() == N_HEADERS + 1
}

/// Establishes the walk context right after a cover's header unlink.
#[verifier::rlimit(100)]
#[verifier::spinoff_prover]
pub proof fn lemma_cover_entry(s0: LState, headers0: Seq<int>, cols0: Map<int, Seq<int>>, h: int)
    requires
        arena_wf(s0, headers0, cols0),
        row_coherent(headers0, cols0),
        headers0.contains(h),
    ensures
        is_header(h),
        cover_ctx(s_unlink_head(s0, h), s0, cols0, cols0[h], h),
        0 <= nl(s0.nodes, h) < N_NODES,
        0 <= nr(s0.nodes, h) < N_NODES,
        s0.nodes.len() == N_NODES,
        s0.sizes.len() == N_HEADERS + 1,
        nd(s_unlink_head(s0, h).nodes, h) == (if cols0[h].len() > 0 {
            cols0[h][0]
        } else {
            h
        }),
        nu(s_unlink_head(s0, h).nodes, h) == (if cols0[h].len() > 0 {
            cols0[h][cols0[h].len() - 1]
        } else {
            h
        }),
{
    lemma_unlink_head_step(s0, headers0, cols0, h);
    let mem = cols0[h];
    assert(col_ok(s0, h, mem));
    assert forall|k: int| 0 <= k < mem.len() implies row_in_cols(cols0, #[trigger] mem[k]) by {
        assert(others_live(headers0, cols0, cols0[h][k]));
    }
    assert(vring_at(s0.nodes, h, mem, 0));
    assert(vring_at(s0.nodes, h, mem, mem.len() as int));
    assert(s_unlink_head(s0, h).nodes[h] == s0.nodes[h]);
}

/// The rows not yet covered still have all their siblings linked.
#[verifier::rlimit(100)]
#[verifier::spinoff_prover]
pub proof fn lemma_cc_ready(cols0: Map<int, Seq<int>>, mem: Seq<int>, h: int, m: int, k: int)
    requires
        is_header(h),
        mem.no_duplicates(),
        forall|kk: int|
            0 <= kk < mem.len() ==> is_row_node(#[trigger] mem[kk]) && node_head(mem[kk]) == h,
        forall|kk: int| 0 <= kk < mem.len() ==> row_in_cols(cols0, #[trigger] mem[kk]),
        forall|h2: int| is_header(h2) ==> cols0.contains_key(h2),
        forall|h2: int, kk: int|
            #![trigger cols0[h2][kk]]
            is_header(h2) && 0 <= kk < cols0[h2].len() ==> is_row_node(cols0[h2][kk]) && node_head(
                cols0[h2][kk],
            ) == h2,
        forall|h2: int| is_header(h2) ==> (#[trigger] cols0[h2]).no_duplicates(),
        0 <= m <= k < mem.len(),
    ensures
        row_in_cols(cc_rows(cols0, mem.take(m)), mem[k]),
{
    let j = mem[k];
    lemma_others_shape(j);
    assert forall|t: int| 0 <= t < 3 implies cc_rows(cols0, mem.take(m))[node_head(
        #[trigger] others(j)[t],
    )].contains(others(j)[t]) by {
        let o = others(j)[t];
        let oh = node_head(o);
        lemma_vmem_of_node(o);
        assert(row_in_cols(cols0, mem[k]));
        assert(cols0[oh].contains(o));
        if is_sibling_of(o, mem.take(m)) {
            let k3 = choose|k3: int|
                0 <= k3 < mem.take(m).len() && (#[trigger] others(mem.take(m)[k3])).contains(o);
            assert(mem.take(m)[k3] == mem[k3]);
            lemma_others_shape(mem[k3]);
            assert(cand_of(o) == cand_of(mem[k3]));
            assert(cand_of(o) == cand_of(j));
            lemma_same_head_distinct_cands(j, mem[k3]);
            assert(false);
        }
        lemma_cc_member_one(cols0, mem.take(m), oh, o);
    }
}

/// The member shape facts `lemma_cc_ready` wants, read off a well-formed
/// state.
pub proof fn lemma_cols_shape_of_wf(s: LState, cols: Map<int, Seq<int>>)
    requires
        cols_wf(s, cols),
    ensures
        forall|h2: int| is_header(h2) ==> cols.contains_key(h2),
        forall|h2: int, kk: int|
            #![trigger cols[h2][kk]]
            is_header(h2) && 0 <= kk < cols[h2].len() ==> is_row_node(cols[h2][kk]) && node_head(
                cols[h2][kk],
            ) == h2,
        forall|h2: int| is_header(h2) ==> (#[trigger] cols[h2]).no_duplicates(),
{
    assert forall|h2: int, kk: int|
        #![trigger cols[h2][kk]]
        is_header(h2) && 0 <= kk < cols[h2].len() implies is_row_node(cols[h2][kk]) && node_head(
        cols[h2][kk],
    ) == h2 by {
        assert(col_ok(s, h2, cols[h2]));
    }
    assert forall|h2: int| is_header(h2) implies (#[trigger] cols[h2]).no_duplicates() by {
        assert(col_ok(s, h2, cols[h2]));
    }
}

/// Just the well-formedness of a partially covered state, for callers
/// that need its bounds and sizes and nothing else.
pub proof fn lemma_fold_wf(s1: LState, cols0: Map<int, Seq<int>>, mem: Seq<int>, h: int, m: int)
    requires
        cols_wf(s1, cols0),
        is_header(h),
        mem.no_duplicates(),
        forall|k: int|
            0 <= k < mem.len() ==> is_row_node(#[trigger] mem[k]) && node_head(mem[k]) == h,
        forall|k: int| 0 <= k < mem.len() ==> row_in_cols(cols0, #[trigger] mem[k]),
        0 <= m <= mem.len(),
    ensures
        cols_wf(s_cover_rows(s1, mem.take(m)), cc_rows(cols0, mem.take(m))),
        s_cover_rows(s1, mem.take(m)).nodes.len() == s1.nodes.len(),
        s_cover_rows(s1, mem.take(m)).sizes.len() == s1.sizes.len(),
{
    lemma_cover_rows_steps(s1, cols0, mem, h, m);
}

/// Bounds and ring facts for unlinking one sibling of row `mem[m]`
/// from a partially covered state: the sibling is linked, its column's
/// size is positive, and its links stay inside the arena.
#[verifier::rlimit(100)]
#[verifier::spinoff_prover]
pub proof fn lemma_cover_can_unlink(
    s1: LState,
    cols0: Map<int, Seq<int>>,
    mem: Seq<int>,
    h: int,
    m: int,
    t: int,
)
    requires
        cols_wf(s1, cols0),
        is_header(h),
        mem.no_duplicates(),
        forall|k: int|
            0 <= k < mem.len() ==> is_row_node(#[trigger] mem[k]) && node_head(mem[k]) == h,
        forall|k: int| 0 <= k < mem.len() ==> row_in_cols(cols0, #[trigger] mem[k]),
        0 <= m < mem.len(),
        0 <= t < 3,
    ensures
        can_unlink(s_cover_rows(s1, mem.take(m)), others(mem[m])[t]),
        terr_at(s_cover_rows(s1, mem.take(m)).nodes, others(mem[m])[t], node_head(others(mem[m])[t])),
        nr(s_cover_rows(s1, mem.take(m)).nodes, mem[m]) == others(mem[m])[0],
        nr(s_cover_rows(s1, mem.take(m)).nodes, others(mem[m])[0]) == others(mem[m])[1],
        nr(s_cover_rows(s1, mem.take(m)).nodes, others(mem[m])[1]) == others(mem[m])[2],
        is_row_node(mem[m]),
        s_cover_rows(s1, mem.take(m)).nodes[others(mem[m])[t]].head == node_head(
            others(mem[m])[t],
        ),
{
    let j = mem[m];
    let xm = s_cover_rows(s1, mem.take(m));
    let cm = cc_rows(cols0, mem.take(m));
    lemma_fold_wf(s1, cols0, mem, h, m);
    lemma_cols_shape_of_wf(s1, cols0);
    lemma_cc_ready(cols0, mem, h, m, m);
    lemma_others_shape(j);
    let o = others(j)[t];
    let ho = node_head(o);
    lemma_vmem_of_node(o);
    assert(terr_at(xm.nodes, o, ho));
    assert(cm[ho].contains(o) && col_ok(xm, ho, cm[ho]));
}

/// One iteration of the cover walk, first half: the three sibling
/// unlinks of row `mem[m]` have their bounds, and the walk reads each
/// next sibling off an unchanged `right` link.
#[verifier::rlimit(100)]
#[verifier::spinoff_prover]
pub proof fn lemma_cover_iter_links(
    s1: LState,
    s0: LState,
    cols0: Map<int, Seq<int>>,
    mem: Seq<int>,
    h: int,
    m: int,
)
    requires
        cover_ctx(s1, s0, cols0, mem, h),
        0 <= m < mem.len(),
    ensures
        is_row_node(mem[m]),
        can_unlink(s_cover_rows(s1, mem.take(m)), others(mem[m])[0]),
        nr(s_cover_rows(s1, mem.take(m)).nodes, mem[m]) == others(mem[m])[0],
        can_unlink(
            s_unlink(s_cover_rows(s1, mem.take(m)), others(mem[m])[0]),
            others(mem[m])[1],
        ),
        nr(
            s_unlink(s_cover_rows(s1, mem.take(m)), others(mem[m])[0]).nodes,
            others(mem[m])[0],
        ) == others(mem[m])[1],
        can_unlink(
            s_unlink(
                s_unlink(s_cover_rows(s1, mem.take(m)), others(mem[m])[0]),
                others(mem[m])[1],
            ),
            others(mem[m])[2],
        ),
        nr(
            s_unlink(
                s_unlink(s_cover_rows(s1, mem.take(m)), others(mem[m])[0]),
                others(mem[m])[1],
            ).nodes,
            others(mem[m])[1],
        ) == others(mem[m])[2],
{
    let j = mem[m];
    let xm = s_cover_rows(s1, mem.take(m));
    lemma_cover_can_unlink(s1, cols0, mem, h, m, 0);
    lemma_cover_can_unlink(s1, cols0, mem, h, m, 1);
    lemma_cover_can_unlink(s1, cols0, mem, h, m, 2);
    lemma_others_shape(j);
    lemma_vmem_of_node(others(j)[0]);
    lemma_vmem_of_node(others(j)[1]);
    lemma_vmem_of_node(others(j)[2]);
    let o1 = others(j)[0];
    let o2 = others(j)[1];
    let o3 = others(j)[2];
    let h1 = node_head(o1);
    let h2 = node_head(o2);
    let h3 = node_head(o3);
    let x1 = s_unlink(xm, o1);
    // the unlink of o1 writes only in o1's column territory
    assert(in_terr(nu(xm.nodes, o1), h1) && in_terr(nd(xm.nodes, o1), h1));
    assert(x1.nodes[o2] == xm.nodes[o2]);
    assert(x1.nodes[o1] == xm.nodes[o1]);
    assert(x1.sizes[h2] == xm.sizes[h2]);
    let x2 = s_unlink(x1, o2);
    assert(in_terr(nu(x1.nodes, o2), h2) && in_terr(nd(x1.nodes, o2), h2));
    assert(x2.nodes[o3] == xm.nodes[o3]);
    assert(x2.nodes[o2] == x1.nodes[o2]);
    assert(x2.sizes[h3] == xm.sizes[h3]);
}

/// One iteration of the cover walk, second half: the three unlinks land
/// on the next fold state, and the walk's `down` step reads the ring of
/// the covered column unchanged.
#[verifier::rlimit(100)]
#[verifier::spinoff_prover]
pub proof fn lemma_cover_iter_state(
    s1: LState,
    s0: LState,
    cols0: Map<int, Seq<int>>,
    mem: Seq<int>,
    h: int,
    m: int,
)
    requires
        cover_ctx(s1, s0, cols0, mem, h),
        0 <= m < mem.len(),
    ensures
        s_unlink(
            s_unlink(
                s_unlink(s_cover_rows(s1, mem.take(m)), others(mem[m])[0]),
                others(mem[m])[1],
            ),
            others(mem[m])[2],
        ) == s_cover_rows(s1, mem.take(m + 1)),
        s_cover_rows(s1, mem.take(m + 1)).nodes.len() == N_NODES,
        nd(s_cover_rows(s1, mem.take(m + 1)).nodes, mem[m]) == (if m + 1 < mem.len() {
            mem[m + 1]
        } else {
            h
        }),
{
    let j = mem[m];
    let xm = s_cover_rows(s1, mem.take(m));
    lemma_cover_rows_snoc(s1, mem.take(m), j);
    assert(mem.take(m + 1) =~= mem.take(m).push(j));
    assert(s_cover_rows(s1, mem.take(m + 1)) == s_unlink_row(xm, j));
    lemma_cover_rows_steps(s1, cols0, mem, h, m + 1);
    assert(in_terr(j, h));
    assert(s_cover_rows(s1, mem.take(m + 1)).nodes[j] == s0.nodes[j]);
    assert(vring_at(s0.nodes, h, mem, m + 1));
}

/// One iteration of the uncover walk, first half: the three sibling
/// relinks of row `mem[m - 1]` have their bounds, and the walk reads
/// each next sibling off an unchanged `left` link.
#[verifier::rlimit(100)]
#[verifier::spinoff_prover]
pub proof fn lemma_uncover_iter_links(
    s1: LState,
    s0: LState,
    cols0: Map<int, Seq<int>>,
    mem: Seq<int>,
    h: int,
    m: int,
)
    requires
        cover_ctx(s1, s0, cols0, mem, h),
        0 < m <= mem.len(),
    ensures
        is_row_node(mem[m - 1]),
        can_relink(s_cover_rows(s1, mem.take(m)), others(mem[m - 1])[2]),
        nl(s_cover_rows(s1, mem.take(m)).nodes, mem[m - 1]) == others(mem[m - 1])[2],
        can_relink(
            s_relink(s_cover_rows(s1, mem.take(m)), others(mem[m - 1])[2]),
            others(mem[m - 1])[1],
        ),
        nl(
            s_relink(s_cover_rows(s1, mem.take(m)), others(mem[m - 1])[2]).nodes,
            others(mem[m - 1])[2],
        ) == others(mem[m - 1])[1],
        can_relink(
            s_relink(
                s_relink(s_cover_rows(s1, mem.take(m)), others(mem[m - 1])[2]),
                others(mem[m - 1])[1],
            ),
            others(mem[m - 1])[0],
        ),
        nl(
            s_relink(
                s_relink(s_cover_rows(s1, mem.take(m)), others(mem[m - 1])[2]),
                others(mem[m - 1])[1],
            ).nodes,
            others(mem[m - 1])[1],
        ) == others(mem[m - 1])[0],
{
    let j = mem[m - 1];
    let xm = s_cover_rows(s1, mem.take(m));
    let cm = cc_rows(cols0, mem.take(m));
    lemma_cover_rows_steps(s1, cols0, mem, h, m);
    lemma_others_shape(j);
    let o1 = others(j)[0];
    let o2 = others(j)[1];
    let o3 = others(j)[2];
    let h1 = node_head(o1);
    let h2 = node_head(o2);
    let h3 = node_head(o3);
    lemma_vmem_of_node(o1);
    lemma_vmem_of_node(o2);
    lemma_vmem_of_node(o3);
    assert(terr_at(xm.nodes, o1, h1));
    assert(terr_at(xm.nodes, o2, h2));
    assert(terr_at(xm.nodes, o3, h3));
    assert(col_ok(xm, h1, cm[h1]));
    assert(col_ok(xm, h2, cm[h2]));
    assert(col_ok(xm, h3, cm[h3]));
    let y3 = s_relink(xm, o3);
    assert(in_terr(nu(xm.nodes, o3), h3) && in_terr(nd(xm.nodes, o3), h3));
    assert(y3.nodes[o2] == xm.nodes[o2]);
    assert(y3.nodes[o3].left == xm.nodes[o3].left);
    assert(y3.sizes[h2] == xm.sizes[h2]);
    let y2 = s_relink(y3, o2);
    assert(in_terr(nu(y3.nodes, o2), h2) && in_terr(nd(y3.nodes, o2), h2));
    assert(y2.nodes[o1] == xm.nodes[o1]);
    assert(y2.nodes[o2].left == y3.nodes[o2].left);
    assert(y2.sizes[h1] == xm.sizes[h1]);
}

/// One iteration of the uncover walk, second half: the three relinks
/// restore the previous fold state exactly, and the walk's `up` step
/// reads the ring of the covered column unchanged.
#[verifier::rlimit(100)]
#[verifier::spinoff_prover]
pub proof fn lemma_uncover_iter_state(
    s1: LState,
    s0: LState,
    cols0: Map<int, Seq<int>>,
    mem: Seq<int>,
    h: int,
    m: int,
)
    requires
        cover_ctx(s1, s0, cols0, mem, h),
        0 < m <= mem.len(),
    ensures
        s_relink(
            s_relink(
                s_relink(s_cover_rows(s1, mem.take(m)), others(mem[m - 1])[2]),
                others(mem[m - 1])[1],
            ),
            others(mem[m - 1])[0],
        ) == s_cover_rows(s1, mem.take(m - 1)),
        s_cover_rows(s1, mem.take(m)).nodes.len() == N_NODES,
        nu(s_cover_rows(s1, mem.take(m - 1)).nodes, mem[m - 1]) == (if m - 1 > 0 {
            mem[m - 2]
        } else {
            h
        }),
{
    let j = mem[m - 1];
    let xp = s_cover_rows(s1, mem.take(m - 1));
    let cp = cc_rows(cols0, mem.take(m - 1));
    let xm = s_cover_rows(s1, mem.take(m));
    lemma_cover_rows_steps(s1, cols0, mem, h, m);
    lemma_cover_rows_steps(s1, cols0, mem, h, m - 1);
    lemma_cols_shape_of_wf(s1, cols0);
    lemma_cc_ready(cols0, mem, h, m - 1, m - 1);
    lemma_others_shape(j);
    assert(row_in_cols(cp, j));
    lemma_unlink_row_step(xp, cp, j);
    lemma_cover_rows_snoc(s1, mem.take(m - 1), j);
    assert(mem.take(m) =~= mem.take(m - 1).push(j));
    assert(xm == s_unlink_row(xp, j));
    assert(s_relink_row(xm, j) == xp);
    assert(in_terr(j, h));
    assert(s_cover_rows(s1, mem.take(m - 1)).nodes[j] == s0.nodes[j]);
    assert(vring_at(s0.nodes, h, mem, m - 1));
}

/// After the reverse walk, relinking the header restores the state from
/// before the cover.
pub proof fn lemma_uncover_exit(s0: LState, headers0: Seq<int>, cols0: Map<int, Seq<int>>, h: int)
    requires
        arena_wf(s0, headers0, cols0),
        headers0.contains(h),
    ensures
        is_header(h),
        s_unlink_head(s0, h).nodes[h] == s0.nodes[h],
        0 <= nl(s_unlink_head(s0, h).nodes, h) < N_NODES,
        0 <= nr(s_unlink_head(s0, h).nodes, h) < N_NODES,
        s_unlink_head(s0, h).nodes.len() == N_NODES,
        s_relink_head(s_unlink_head(s0, h), h) == s0,
{
    lemma_unlink_head_step(s0, headers0, cols0, h);
}

/// A fresh arena's columns are well formed and its candidates coherent.
pub proof fn lemma_init_wf()
    ensures
        arena_wf(init_lstate(), full_headers(), init_cols()),
        row_coherent(full_headers(), init_cols()),
{
    let s = init_lstate();
    let headers = full_headers();
    let cols = init_cols();
    assert forall|n: int| is_row_node(n) implies {
        &&& nl(s.nodes, n) == rprev(n)
        &&& nr(s.nodes, n) == rnext(n)
        &&& (#[trigger] s.nodes[n]).head == node_head(n)
    } by {
        lemma_vmem_of_node(n);
        lemma_rnext(n);
    }
    assert(statics_ok(s.nodes));
    assert forall|n: int| is_row_node(n) implies #[trigger] terr_at(s.nodes, n, node_head(n)) by {
        lemma_vmem_of_node(n);
        if node_pos(n) > 0 {
            lemma_vmem_inverse(node_head(n), node_pos(n) - 1);
        }
        if node_pos(n) < 8 {
            lemma_vmem_inverse(node_head(n), node_pos(n) + 1);
        }
    }
    assert forall|h: int| is_header(h) implies #[trigger] terr_at(s.nodes, h, h) by {
        lemma_vmem_inverse(h, 0);
        lemma_vmem_inverse(h, 8);
    }
    assert forall|h: int| is_header(h) implies col_ok(s, h, #[trigger] cols[h]) by {
        let mem = init_members(h);
        assert forall|k: int| 0 <= k < 1 + mem.len() implies #[trigger] vring_at(
            s.nodes,
            h,
            mem,
            k,
        ) by {
            if k > 0 {
                lemma_vmem_inverse(h, k - 1);
            }
            if k < 9 {
                lemma_vmem_inverse(h, k);
            }
        }
        assert forall|i: int, j: int| 0 <= i < j < mem.len() implies mem[i] != mem[j] by {
            lemma_vmem_inverse(h, i);
            lemma_vmem_inverse(h, j);
        }
        assert forall|k: int| 0 <= k < mem.len() implies is_row_node(#[trigger] mem[k])
            && node_head(mem[k]) == h by {
            lemma_vmem_inverse(h, k);
        }
    }
    assert forall|k: int| 0 <= k < 1 + headers.len() implies #[trigger] hring_at(
        s.nodes,
        headers,
        k,
    ) by {}
    assert forall|i: int, j: int| 0 <= i < j < headers.len() implies headers[i] != headers[j] by {}
    assert(hring_ok(s.nodes, headers));
    assert forall|h: int, k: int|
        #![trigger cols[h][k]]
        headers.contains(h) && cols.contains_key(h) && 0 <= k < cols[h].len() implies others_live(
        headers,
        cols,
        cols[h][k],
    ) by {
        let j = cols[h][k];
        lemma_vmem_inverse(h, k);
        assert forall|t: int| 0 <= t < 3 implies live_node(headers, cols, #[trigger] others(j)[t]) by {
            lemma_rnext(j);
            lemma_rnext(rnext(j));
            lemma_rnext(rnext(rnext(j)));
            let o = others(j)[t];
            lemma_vmem_of_node(o);
            let oh = node_head(o);
            assert(headers[oh - 1] == oh);
            assert(headers.contains(oh));
            assert(init_members(oh)[node_pos(o)] == o);
            assert(cols[oh].contains(o));
        }
    }
}

/// Tells a full header index apart by membership in the fresh ring.
pub proof fn lemma_full_headers_contains(x: int)
    ensures
        full_headers().contains(x) <==> is_header(x),
{
    if is_header(x) {
        assert(full_headers()[x - 1] == x);
    }
}

/// The dancing-links arena.  The executable state is the node vector and
/// the per-column size table; the ghost state carries the ring contents
/// and the trail of covers that explains how the current state arose.
pub struct Dlx {
    nodes: Vec<Node>,
    sizes: Vec<usize>,
    headers_g: Ghost<Seq<int>>,
    cols_g: Ghost<Map<int, Seq<int>>>,
    trail_g: Ghost<Seq<Frame>>,
}

impl Dlx {
    /// The complete link state.
    pub closed spec fn lstate(self) -> LState {
        LState { nodes: self.nodes@, sizes: self.sizes@ }
    }

    /// The live headers, in ring order after the root.
    pub closed spec fn live_headers(self) -> Seq<int> {
        self.headers_g@
    }

    /// The members of every column's vertical ring, top to bottom.
    pub closed spec fn live_cols(self) -> Map<int, Seq<int>> {
        self.cols_g@
    }

    /// The covers performed and not yet undone, oldest first.
    pub closed spec fn trail(self) -> Seq<Frame> {
        self.trail_g@
    }

    /// The arena invariant.
    pub open spec fn wf(self) -> bool {
        &&& arena_wf(self.lstate(), self.live_headers(), self.live_cols())
        &&& row_coherent(self.live_headers(), self.live_cols())
        &&& trail_ok(self.trail(), self.lstate(), self.live_headers(), self.live_cols())
    }

    /// A copy of one arena node, for inspection.
    pub fn node(&self, n: usize) -> (r: Node)
        requires
            n < N_NODES,
            self.lstate().nodes.len() == N_NODES,
        ensures
            r == self.lstate().nodes[n as int],
    {
        self.nodes[n]
    }

    /// The live-row count of one column.
    pub fn size_of(&self, h: usize) -> (r: usize)
        requires
            h <= N_HEADERS,
            self.lstate().sizes.len() == N_HEADERS + 1,
        ensures
            r == self.lstate().sizes[h as int],
    {
        self.sizes[h]
    }

    /// Builds the arena for the fixed 9-by-9 puzzle shape: all 729
    /// candidates, all 324 constraint columns, every ring complete.
    pub fn new() -> (d: Dlx)
        ensures
            d.wf(),
            d.lstate() == init_lstate(),
            d.live_headers() == full_headers(),
            d.live_cols() == init_cols(),
            d.trail() == Seq::<Frame>::empty(),
    {
        let mut nodes: Vec<Node> = Vec::new();
        let mut n: usize = 0;
        while n < N_NODES
            invariant
                n <= N_NODES,
                nodes@.len() == n,
                forall|i: int| 0 <= i < n ==> nodes@[i] == init_node(i),
            decreases N_NODES - n,
        {
            nodes.push(make_node(n));
            n += 1;
        }
        let mut sizes: Vec<usize> = Vec::new();
        sizes.push(0);
        let mut h: usize = 1;
        while h <= N_HEADERS
            invariant
                1 <= h <= N_HEADERS + 1,
                sizes@.len() == h,
                sizes@[0] == 0usize,
                forall|i: int| 1 <= i < h ==> sizes@[i] == 9usize,
            decreases N_HEADERS + 1 - h,
        {
            sizes.push(9);
            h += 1;
        }
        let d = Dlx {
            nodes,
            sizes,
            headers_g: Ghost(full_headers()),
            cols_g: Ghost(init_cols()),
            trail_g: Ghost(Seq::empty()),
        };
        proof {
            assert(d.lstate().nodes =~= init_lstate().nodes);
            assert(d.lstate().sizes =~= init_lstate().sizes);
            assert(d.lstate() =~= init_lstate());
            lemma_init_wf();
        }
        d
    }

    /// Unlinks node `j` from its column's vertical ring and decrements
    /// the column's size.  `j`'s own links are left untouched.
    fn unlink_node(&mut self, j: usize)
        requires
            can_unlink(old(self).lstate(), j as int),
        ensures
            final(self).lstate() == s_unlink(old(self).lstate(), j as int),
            final(self).live_headers() == old(self).live_headers(),
            final(self).live_cols() == old(self).live_cols(),
            final(self).trail() == old(self).trail(),
    {
        let jn = self.nodes[j];
        let mut t = self.nodes[jn.up];
        t.down = jn.down;
        self.nodes[jn.up] = t;
        let mut t2 = self.nodes[jn.down];
        t2.up = jn.up;
        self.nodes[jn.down] = t2;
        let sz = self.sizes[jn.head];
        self.sizes[jn.head] = sz - 1;
        proof {
            assert(self.lstate().nodes =~= s_unlink(old(self).lstate(), j as int).nodes);
            assert(self.lstate().sizes =~= s_unlink(old(self).lstate(), j as int).sizes);
            assert(self.lstate() =~= s_unlink(old(self).lstate(), j as int));
        }
    }

    /// Relinks node `j` into its column's vertical ring and increments
    /// the column's size, using `j`'s own untouched links.
    fn relink_node(&mut self, j: usize)
        requires
            can_relink(old(self).lstate(), j as int),
        ensures
            final(self).lstate() == s_relink(old(self).lstate(), j as int),
            final(self).live_headers() == old(self).live_headers(),
            final(self).live_cols() == old(self).live_cols(),
            final(self).trail() == old(self).trail(),
    {
        let jn = self.nodes[j];
        let mut t = self.nodes[jn.up];
        t.down = j;
        self.nodes[jn.up] = t;
        let mut t2 = self.nodes[jn.down];
        t2.up = j;
        self.nodes[jn.down] = t2;
        let sz = self.sizes[jn.head];
        self.sizes[jn.head] = sz + 1;
        proof {
            assert(self.lstate().nodes =~= s_relink(old(self).lstate(), j as int).nodes);
            assert(self.lstate().sizes =~= s_relink(old(self).lstate(), j as int).sizes);
            assert(self.lstate() =~= s_relink(old(self).lstate(), j as int));
        }
    }

    /// Covers column `h`: unlinks its header from the header ring, then
    /// walks its vertical ring top to bottom and unlinks every member
    /// row's sibling nodes from their own columns, left to right.  The
    /// complete prior state is recorded on the trail.
    #[verifier::rlimit(100)]
    #[verifier::spinoff_prover]
    pub fn cover(&mut self, h: usize)
        requires
            old(self).wf(),
            old(self).live_headers().contains(h as int),
        ensures
            final(self).wf(),
            final(self).lstate() == s_cover(
                old(self).lstate(),
                old(self).live_cols()[h as int],
                h as int,
            ),
            final(self).live_headers() == old(self).live_headers().remove_value(h as int),
            final(self).live_cols() == cc_rows(
                old(self).live_cols(),
                old(self).live_cols()[h as int],
            ),
            final(self).trail() == old(self).trail().push(
                Frame {
                    h: h as int,
                    pre: old(self).lstate(),
                    pre_headers: old(self).live_headers(),
                    pre_cols: old(self).live_cols(),
                },
            ),
    {
        let ghost s0 = self.lstate();
        let ghost headers0 = self.live_headers();
        let ghost cols0 = self.live_cols();
        let ghost trail0 = self.trail();
        let ghost mem = cols0[h as int];
        proof {
            lemma_cover_entry(s0, headers0, cols0, h as int);
        }
        let hn = self.nodes[h];
        let mut t = self.nodes[hn.left];
        t.right = hn.right;
        self.nodes[hn.left] = t;
        let mut t2 = self.nodes[hn.right];
        t2.left = hn.left;
        self.nodes[hn.right] = t2;
        let ghost s1 = s_unlink_head(s0, h as int);
        proof {
            assert(self.lstate().nodes =~= s1.nodes);
            assert(self.lstate() =~= s1);
            assert(mem.take(0) =~= Seq::<int>::empty());
            assert(s_cover_rows(s1, mem.take(0)) == s1);
        }
        let mut i = self.nodes[h].down;
        let ghost mut m: int = 0;
        while i != h
            invariant
                cover_ctx(s1, s0, cols0, mem, h as int),
                0 <= m <= mem.len(),
                i as int == (if m < mem.len() {
                    mem[m]
                } else {
                    h as int
                }),
                self.lstate() == s_cover_rows(s1, mem.take(m)),
                self.live_headers() == headers0,
                self.live_cols() == cols0,
                self.trail() == trail0,
            decreases mem.len() - m,
        {
            proof {
                if m == mem.len() {
                    assert(false);
                }
                lemma_cover_iter_links(s1, s0, cols0, mem, h as int, m);
                lemma_cover_iter_state(s1, s0, cols0, mem, h as int, m);
            }
            let o1 = self.nodes[i].right;
            self.unlink_node(o1);
            let o2 = self.nodes[o1].right;
            self.unlink_node(o2);
            let o3 = self.nodes[o2].right;
            self.unlink_node(o3);
            i = self.nodes[i].down;
            proof {
                m = m + 1;
            }
        }
        proof {
            if m < mem.len() {
                assert(is_row_node(mem[m]));
                assert(false);
            }
            assert(mem.take(mem.len() as int) =~= mem);
        }
        self.headers_g = Ghost(headers0.remove_value(h as int));
        self.cols_g = Ghost(cc_rows(cols0, mem));
        self.trail_g = Ghost(
            trail0.push(Frame { h: h as int, pre: s0, pre_headers: headers0, pre_cols: cols0 }),
        );
        proof {
            lemma_cover_facts(s0, headers0, cols0, h as int);
            let f = Frame { h: h as int, pre: s0, pre_headers: headers0, pre_cols: cols0 };
            assert(trail0.push(f).last() == f);
            assert(trail0.push(f).drop_last() =~= trail0);
        }
    }

    /// Uncovers column `h`, the most recent cover on the trail: walks its
    /// vertical ring bottom to top and relinks every member row's sibling
    /// nodes right to left, then relinks the header.  This restores the
    /// recorded prior state exactly, links and sizes alike.
    #[verifier::rlimit(100)]
    #[verifier::spinoff_prover]
    pub fn uncover(&mut self, h: usize)
        requires
            old(self).wf(),
            old(self).trail().len() > 0,
            old(self).trail().last().h == h as int,
        ensures
            final(self).wf(),
            final(self).lstate() == old(self).trail().last().pre,
            final(self).live_headers() == old(self).trail().last().pre_headers,
            final(self).live_cols() == old(self).trail().last().pre_cols,
            final(self).trail() == old(self).trail().drop_last(),
    {
        let ghost f = self.trail().last();
        let ghost trail0 = self.trail();
        let ghost sp = f.pre;
        let ghost mem = f.pre_cols[h as int];
        let ghost s1 = s_unlink_head(sp, h as int);
        proof {
            lemma_cover_entry(sp, f.pre_headers, f.pre_cols, h as int);
            lemma_cover_rows_steps(s1, f.pre_cols, mem, h as int, mem.len() as int);
            assert(mem.take(mem.len() as int) =~= mem);
            assert(self.lstate() == s_cover_rows(s1, mem.take(mem.len() as int)));
            assert(self.lstate().nodes[h as int] == s1.nodes[h as int]) by {
                assert(in_terr(h as int, h as int));
            }
        }
        let mut i = self.nodes[h].up;
        let ghost mut m: int = mem.len() as int;
        while i != h
            invariant
                cover_ctx(s1, sp, f.pre_cols, mem, h as int),
                0 <= m <= mem.len(),
                i as int == (if m > 0 {
                    mem[m - 1]
                } else {
                    h as int
                }),
                self.lstate() == s_cover_rows(s1, mem.take(m)),
                self.live_headers() == frame_next_headers(f),
                self.live_cols() == frame_next_cols(f),
                self.trail() == trail0,
            decreases m,
        {
            proof {
                if m == 0 {
                    assert(false);
                }
                lemma_uncover_iter_links(s1, sp, f.pre_cols, mem, h as int, m);
                lemma_uncover_iter_state(s1, sp, f.pre_cols, mem, h as int, m);
            }
            let o3 = self.nodes[i].left;
            self.relink_node(o3);
            let o2 = self.nodes[o3].left;
            self.relink_node(o2);
            let o1 = self.nodes[o2].left;
            self.relink_node(o1);
            i = self.nodes[i].up;
            proof {
                m = m - 1;
            }
        }
        proof {
            if m > 0 {
                assert(is_row_node(mem[m - 1]));
                assert(false);
            }
            assert(mem.take(0) =~= Seq::<int>::empty());
            assert(self.lstate() == s1);
            lemma_uncover_exit(sp, f.pre_headers, f.pre_cols, h as int);
        }
        let hn = self.nodes[h];
        let mut t = self.nodes[hn.left];
        t.right = h;
        self.nodes[hn.left] = t;
        let mut t2 = self.nodes[hn.right];
        t2.left = h;
        self.nodes[hn.right] = t2;
        proof {
            assert(self.lstate().nodes =~= s_relink_head(s1, h as int).nodes);
            assert(self.lstate().sizes =~= s_relink_head(s1, h as int).sizes);
            assert(self.lstate() =~= s_relink_head(s1, h as int));
            assert(self.lstate() == sp);
        }
        self.headers_g = Ghost(f.pre_headers);
        self.cols_g = Ghost(f.pre_cols);
        self.trail_g = Ghost(trail0.drop_last());
        proof {
            assert(trail_ok(trail0.drop_last(), sp, f.pre_headers, f.pre_cols));
        }
    }
}

/// The position of the first size-minimal entry among the first `k`
/// live headers — the minimum-remaining-values choice, ties broken by
/// ring order.
pub open spec fn mrv_pref(s: LState, headers: Seq<int>, k: int) -> int
    decreases k,
{
    if k <= 1 {
        0
    } else {
        let r = mrv_pref(s, headers, k - 1);
        if s.sizes[headers[k - 1]] < s.sizes[headers[r]] {
            k - 1
        } else {
            r
        }
    }
}

/// The header the minimum-remaining-values heuristic picks.
pub open spec fn mrv_choice(s: LState, headers: Seq<int>) -> int {
    headers[mrv_pref(s, headers, headers.len() as int)]
}

/// The heuristic's pick is in range and size-minimal over the prefix.
pub proof fn lemma_mrv_min(s: LState, headers: Seq<int>, k: int)
    requires
        1 <= k <= headers.len(),
    ensures
        0 <= mrv_pref(s, headers, k) < k,
        forall|t: int|
            0 <= t < k ==> s.sizes[#[trigger] headers[t]] >= s.sizes[headers[mrv_pref(
                s,
                headers,
                k,
            )]],
    decreases k,
{
    if k > 1 {
        lemma_mrv_min(s, headers, k - 1);
    }
}

impl Dlx {
    /// The root's right neighbor: the first live header, or the root
    /// itself exactly when no column is left.
    pub fn root_right(&self) -> (r: usize)
        requires
            self.wf(),
        ensures
            r as int == nr(self.lstate().nodes, 0),
            (r == 0) <==> (self.live_headers().len() == 0),
            self.live_headers().len() > 0 ==> r as int == self.live_headers()[0],
    {
        proof {
            assert(hring_at(self.lstate().nodes, self.live_headers(), 0));
        }
        self.nodes[ROOT].right
    }

    /// Selects, among the live columns, the one with the fewest live
    /// rows, ties broken by encounter order in the header ring.
    pub fn choose_column(&self) -> (h: usize)
        requires
            self.wf(),
            self.live_headers().len() > 0,
        ensures
            h as int == mrv_choice(self.lstate(), self.live_headers()),
            self.live_headers().contains(h as int),
            is_header(h as int),
            forall|t: int|
                0 <= t < self.live_headers().len() ==> self.lstate().sizes[#[trigger] self.live_headers()[t]]
                    >= self.lstate().sizes[h as int],
    {
        let ghost s = self.lstate();
        let ghost headers = self.live_headers();
        proof {
            assert(hring_at(s.nodes, headers, 0));
        }
        let mut best = self.nodes[ROOT].right;
        let mut cur = self.nodes[best].right;
        let ghost mut k: int = 1;
        proof {
            assert(hring_at(s.nodes, headers, 1));
        }
        while cur != 0
            invariant
                self.wf(),
                s == self.lstate(),
                headers == self.live_headers(),
                headers.len() > 0,
                1 <= k <= headers.len(),
                best as int == headers[mrv_pref(s, headers, k)],
                0 <= mrv_pref(s, headers, k) < k,
                cur as int == (if k < headers.len() {
                    headers[k]
                } else {
                    0
                }),
            decreases headers.len() - k,
        {
            proof {
                if k == headers.len() {
                    assert(false);
                }
                assert(hring_at(s.nodes, headers, k + 1));
                assert(is_header(headers[k]));
                assert(is_header(headers[mrv_pref(s, headers, k)]));
                assert(col_ok(s, headers[k], self.live_cols()[headers[k]]));
            }
            if self.sizes[cur] < self.sizes[best] {
                best = cur;
            }
            cur = self.nodes[cur].right;
            proof {
                k = k + 1;
                if headers[mrv_pref(s, headers, k)] == 0 {
                    assert(is_header(headers[mrv_pref(s, headers, k)]));
                    assert(false);
                }
            }
        }
        proof {
            if k < headers.len() {
                assert(is_header(headers[k]));
                assert(false);
            }
            lemma_mrv_min(s, headers, headers.len() as int);
            assert(headers[mrv_pref(s, headers, headers.len() as int)] == mrv_choice(s, headers));
            assert(headers.contains(mrv_choice(s, headers))) by {
                assert(headers[mrv_pref(s, headers, headers.len() as int)] == mrv_choice(
                    s,
                    headers,
                ));
            }
        }
        best
    }
}

/// The round-trip identity at the heart of the engine: covering a live
/// column of a well-formed, coherent arena and at once uncovering it
/// leaves every node's four links and every column's size exactly as
/// they were.
pub proof fn lemma_cover_uncover_identity(
    s: LState,
    headers: Seq<int>,
    cols: Map<int, Seq<int>>,
    h: int,
)
    requires
        arena_wf(s, headers, cols),
        row_coherent(headers, cols),
        headers.contains(h),
    ensures
        s_uncover(s_cover(s, cols[h], h), cols[h], h) == s,
{
    lemma_cover_facts(s, headers, cols, h);
}

/// Computes the member node at position `p` of column `h`.
fn vmem_x(h: usize, p: usize) -> (n: usize)
    requires
        is_header(h as int),
        p < 9,
    ensures
        n == vmem(h as int, p as int),
        is_row_node(n as int),
{
    proof {
        lemma_vmem_inverse(h as int, p as int);
    }
    let g = (h - 1) / 81;
    let q = (h - 1) % 81;
    let a = q / 9;
    let b = q % 9;
    if g == 0 {
        NODE_LO + 4 * ((a * 9 + b) * 9 + p)
    } else if g == 1 {
        NODE_LO + 4 * ((a * 9 + p) * 9 + b) + 1
    } else if g == 2 {
        NODE_LO + 4 * ((p * 9 + a) * 9 + b) + 2
    } else {
        NODE_LO + 4 * ((((a / 3) * 3 + p / 3) * 9 + (a % 3) * 3 + p % 3) * 9 + b) + 3
    }
}

/// Computes the links of node `n` in a fresh arena.
fn make_node(n: usize) -> (r: Node)
    requires
        n < N_NODES,
    ensures
        r == init_node(n as int),
{
    if n == 0 {
        Node { left: 324, right: 1, up: 0, down: 0, head: 0 }
    } else if n < NODE_LO {
        let up = vmem_x(n, 8);
        let down = vmem_x(n, 0);
        Node {
            left: n - 1,
            right: if n == 324 {
                0
            } else {
                n + 1
            },
            up,
            down,
            head: n,
        }
    } else {
        proof {
            lemma_vmem_of_node(n as int);
        }
        let k = (n - NODE_LO) % 4;
        let left = if k > 0 {
            n - 1
        } else {
            n + 3
        };
        let right = if k < 3 {
            n + 1
        } else {
            n - 3
        };
        let head = head_x(n);
        let pos = pos_x(n);
        let up = if pos == 0 {
            head
        } else {
            vmem_x(head, pos - 1)
        };
        let down = if pos == 8 {
            head
        } else {
            vmem_x(head, pos + 1)
        };
        Node { left, right, up, down, head }
    }
}

/// Computes the column header of candidate node `n`.
fn head_x(n: usize) -> (h: usize)
    requires
        is_row_node(n as int),
    ensures
        h == node_head(n as int),
        is_header(h as int),
{
    proof {
        lemma_vmem_of_node(n as int);
    }
    let r = (n - NODE_LO) / 4;
    let k = (n - NODE_LO) % 4;
    let x = r / 81;
    let y = (r / 9) % 9;
    let z = r % 9;
    if k == 0 {
        1 + x * 9 + y
    } else if k == 1 {
        1 + 81 + x * 9 + z
    } else if k == 2 {
        1 + 162 + y * 9 + z
    } else {
        1 + 243 + ((x / 3) * 3 + y / 3) * 9 + z
    }
}

/// Computes the ring position of candidate node `n` inside its column.
fn pos_x(n: usize) -> (p: usize)
    requires
        is_row_node(n as int),
    ensures
        p == node_pos(n as int),
        p < 9,
{
    proof {
        lemma_vmem_of_node(n as int);
    }
    let r = (n - NODE_LO) / 4;
    let k = (n - NODE_LO) % 4;
    let x = r / 81;
    let y = (r / 9) % 9;
    let z = r % 9;
    if k == 0 {
        z
    } else if k == 1 {
        y
    } else if k == 2 {
        x
    } else {
        (x % 3) * 3 + y % 3
    }
}

} // verus!
