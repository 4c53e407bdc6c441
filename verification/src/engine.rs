//! The search engine: builds the arena for a concrete puzzle, covers the
//! given placements once, then drives Algorithm X as an explicit state
//! machine over the cover and uncover primitives, yielding solved grids
//! one at a time.

use vstd::prelude::*;

use crate::dlx::{
    arena_wf, cc_rows, col_ok, frame_next_cols, frame_next_headers, frame_next_state, frame_ok,
    full_headers, in_terr, init_cols, init_lstate, lemma_cover_facts,
    lemma_full_headers_contains, lemma_others_shape, lemma_remove_value_char,
    lemma_remove_value_no_dup, live_node, mrv_choice, nd, others_live, s_cover, trail_ok,
    vring_at, Dlx, Frame, LState,
};
use crate::grid::{cells_collide, grid_conflict, grid_seq_wf, is_solution, Grid};
use crate::layout::{
    cand_box, cand_cell, cand_for, cand_of, cand_val, cand_x, cand_y, cand_z, gnode, heads4, is_header, is_row_node, kind_of,
    lemma_cand_coords, lemma_divmod, lemma_head_range, lemma_node_at_inverse, lemma_rnext,
    lemma_vmem_of_node, node_at, node_head, others, rnext, N_HEADERS, N_NODES, NODE_LO,
};

verus! {

/// The phases of the explicit search state machine.
#[derive(Clone, Copy, PartialEq, Eq, Structural, Debug)]
pub enum SearchState {
    /// Choose the next column, or report a solution when none is left.
    Begin,
    /// Cover the remaining columns of the row just chosen.
    Cover,
    /// Take back the most recent choice and try the next candidate.
    Uncover,
    /// A solution is on the board, waiting to be read off.
    SolutionFound,
    /// The search space is exhausted.
    Finished,
}

/// Two given placements collide on a constraint column, reported once,
/// at construction, before any search step.
#[derive(Clone, Copy, PartialEq, Eq, Structural, Debug)]
pub struct InvalidPuzzle;

/// The complete engine state as one ghost value: the arena's links and
/// sizes, the live header ring, the member map, the trail, the chosen
/// rows and the machine's phase.  The search is specified as a function
/// on these values.
#[verifier::ext_equal]
pub struct EngineV {
    pub s: LState,
    pub headers: Seq<int>,
    pub cols: Map<int, Seq<int>>,
    pub trail: Seq<Frame>,
    pub givens: Seq<int>,
    pub stack: Seq<int>,
    pub st: SearchState,
}

/// Covering column `h`, at the machine level: exactly what `Dlx::cover`
/// promises, with the prior state recorded on the trail.
pub open spec fn v_cover(v: EngineV, h: int) -> EngineV {
    EngineV {
        s: s_cover(v.s, v.cols[h], h),
        headers: v.headers.remove_value(h),
        cols: cc_rows(v.cols, v.cols[h]),
        trail: v.trail.push(Frame { h, pre: v.s, pre_headers: v.headers, pre_cols: v.cols }),
        ..v
    }
}

/// Uncovering the most recent cover, at the machine level: the recorded
/// prior state returns, the trail shrinks by one.
pub open spec fn v_uncover(v: EngineV) -> EngineV {
    let f = v.trail.last();
    EngineV { s: f.pre, headers: f.pre_headers, cols: f.pre_cols, trail: v.trail.drop_last(), ..v }
}

/// One transition of the search state machine:
/// - `Begin`: no live column left means a solution is on the board;
///   else take the size-minimal column — empty means a dead branch
///   (`Uncover`, nothing touched), else cover it and push its first
///   live row (`Cover`).
/// - `Cover`: cover the columns of the pushed row's three sibling
///   nodes, left to right, and return to `Begin`.
/// - `Uncover`: an empty stack means exhaustion (`Finished`); else
///   uncover the top row's three sibling columns in reverse, then
///   either advance to the next live candidate below it in its column
///   (`Cover`) or, when none is left, uncover the column itself and
///   pop (`Uncover` again).
/// - `SolutionFound`: reading the solution off resumes at `Uncover`.
/// - `Finished` is terminal.
#[verifier::opaque]
pub open spec fn machine_step(v: EngineV) -> EngineV {
    match v.st {
        SearchState::Begin => {
            if v.headers.len() == 0 {
                EngineV { st: SearchState::SolutionFound, ..v }
            } else {
                let c = mrv_choice(v.s, v.headers);
                if v.s.sizes[c] == 0 {
                    EngineV { st: SearchState::Uncover, ..v }
                } else {
                    let w = v_cover(v, c);
                    EngineV { stack: w.stack.push(nd(v.s.nodes, c)), st: SearchState::Cover, ..w }
                }
            }
        },
        SearchState::Cover => {
            let j = v.stack.last();
            let w = v_cover(
                v_cover(v_cover(v, node_head(rnext(j))), node_head(rnext(rnext(j)))),
                node_head(rnext(rnext(rnext(j)))),
            );
            EngineV { st: SearchState::Begin, ..w }
        },
        SearchState::Uncover => {
            if v.stack.len() == 0 {
                EngineV { st: SearchState::Finished, ..v }
            } else {
                let j = v.stack.last();
                let w = v_uncover(v_uncover(v_uncover(v)));
                if nd(w.s.nodes, j) != node_head(j) {
                    EngineV {
                        stack: w.stack.update(w.stack.len() - 1, nd(w.s.nodes, j)),
                        st: SearchState::Cover,
                        ..w
                    }
                } else {
                    let u = v_uncover(w);
                    EngineV { stack: u.stack.drop_last(), st: SearchState::Uncover, ..u }
                }
            }
        },
        SearchState::SolutionFound => EngineV { st: SearchState::Uncover, ..v },
        SearchState::Finished => v,
    }
}

/// The machine after `n` transitions.
pub open spec fn machine_run(v: EngineV, n: nat) -> EngineV
    decreases n,
{
    if n == 0 {
        v
    } else {
        machine_step(machine_run(v, (n - 1) as nat))
    }
}

/// A state where the run pauses: a solution is on the board, or the
/// space is exhausted.
pub open spec fn is_pause(v: EngineV) -> bool {
    v.st == SearchState::SolutionFound || v.st == SearchState::Finished
}

/// The run from `v0` pauses for the first time after `n` transitions.
pub open spec fn first_pause_at(v0: EngineV, n: nat) -> bool {
    &&& is_pause(machine_run(v0, n))
    &&& forall|m: nat| m < n ==> !is_pause(#[trigger] machine_run(v0, m))
}

/// The `Uncover` step on an empty stack: the machine finishes.
pub proof fn lemma_step_shape_finish(v0: EngineV)
    requires
        v0.st == SearchState::Uncover,
        v0.stack.len() == 0,
    ensures
        machine_step(v0) == (EngineV { st: SearchState::Finished, ..v0 }),
{
    reveal(machine_step);
}

/// The `Uncover` step when the popped row's column holds another live
/// candidate below it: the top choice advances to that candidate.
pub proof fn lemma_step_shape_advance(v0: EngineV)
    requires
        v0.st == SearchState::Uncover,
        v0.stack.len() > 0,
        nd(v_uncover(v_uncover(v_uncover(v0))).s.nodes, v0.stack.last()) != node_head(
            v0.stack.last(),
        ),
    ensures
        machine_step(v0) == (EngineV {
            stack: v_uncover(v_uncover(v_uncover(v0))).stack.update(
                v_uncover(v_uncover(v_uncover(v0))).stack.len() - 1,
                nd(v_uncover(v_uncover(v_uncover(v0))).s.nodes, v0.stack.last()),
            ),
            st: SearchState::Cover,
            ..v_uncover(v_uncover(v_uncover(v0)))
        }),
{
    reveal(machine_step);
}

/// The `Uncover` step when the popped row was its column's last
/// candidate: the column itself is uncovered and the choice popped.
pub proof fn lemma_step_shape_pop(v0: EngineV)
    requires
        v0.st == SearchState::Uncover,
        v0.stack.len() > 0,
        nd(v_uncover(v_uncover(v_uncover(v0))).s.nodes, v0.stack.last()) == node_head(
            v0.stack.last(),
        ),
    ensures
        machine_step(v0) == (EngineV {
            stack: v_uncover(v_uncover(v_uncover(v_uncover(v0)))).stack.drop_last(),
            st: SearchState::Uncover,
            ..v_uncover(v_uncover(v_uncover(v_uncover(v0))))
        }),
{
    reveal(machine_step);
}

/// Covering columns never touches the chosen rows or the phase.
pub proof fn lemma_covers_fold_keeps(v: EngineV, hs: Seq<int>)
    ensures
        covers_fold(v, hs).stack == v.stack,
        covers_fold(v, hs).givens == v.givens,
        covers_fold(v, hs).st == v.st,
    decreases hs.len(),
{
    if hs.len() > 0 {
        lemma_covers_fold_keeps(v_cover(v, hs[0]), hs.drop_first());
    }
}

/// The grid a machine state decodes to: the chosen rows, givens last.
pub open spec fn board_of(v: EngineV) -> Seq<u8> {
    decode_grid(v.stack + v.givens)
}

/// The machine state of a freshly built engine, before any given is
/// covered: the pristine arena, all columns live, nothing chosen.
pub open spec fn init_machine(g: Seq<u8>) -> EngineV {
    EngineV {
        s: init_lstate(),
        headers: full_headers(),
        cols: init_cols(),
        trail: Seq::empty(),
        givens: given_nodes(g),
        stack: Seq::empty(),
        st: SearchState::Begin,
    }
}

/// Covering a whole list of columns, first to last.
pub open spec fn covers_fold(v: EngineV, hs: Seq<int>) -> EngineV
    decreases hs.len(),
{
    if hs.len() == 0 {
        v
    } else {
        covers_fold(v_cover(v, hs[0]), hs.drop_first())
    }
}

/// Covering one more column acts on the folded state.
pub proof fn lemma_covers_fold_snoc(v: EngineV, hs: Seq<int>, c: int)
    ensures
        covers_fold(v, hs.push(c)) == v_cover(covers_fold(v, hs), c),
    decreases hs.len(),
{
    if hs.len() == 0 {
        assert(hs.push(c).drop_first() =~= Seq::<int>::empty());
        assert(hs.push(c)[0] == c);
        assert(covers_fold(v, hs.push(c)) == covers_fold(v_cover(v, c), hs.push(c).drop_first()));
        assert(covers_fold(v_cover(v, c), Seq::<int>::empty()) == v_cover(v, c));
        assert(covers_fold(v, hs) == v);
    } else {
        assert(hs.push(c).drop_first() =~= hs.drop_first().push(c));
        assert(hs.push(c)[0] == hs[0]);
        lemma_covers_fold_snoc(v_cover(v, hs[0]), hs.drop_first(), c);
        assert(covers_fold(v, hs.push(c)) == covers_fold(
            v_cover(v, hs[0]),
            hs.drop_first().push(c),
        ));
        assert(covers_fold(v, hs) == covers_fold(v_cover(v, hs[0]), hs.drop_first()));
    }
}

/// A vector of arena indices, as mathematical integers.
pub open spec fn seq_int(s: Seq<usize>) -> Seq<int> {
    s.map_values(|v: usize| v as int)
}

/// The columns a trail's covers removed, oldest first.
pub open spec fn trail_hs(tr: Seq<Frame>) -> Seq<int> {
    tr.map_values(|f: Frame| f.h)
}

/// The columns covered on behalf of the chosen rows, in cover order:
/// for each row, its own column first, then its siblings' columns.
pub open spec fn covers_of(ch: Seq<int>) -> Seq<int>
    decreases ch.len(),
{
    if ch.len() == 0 {
        Seq::empty()
    } else {
        covers_of(ch.drop_last()) + heads4(ch.last())
    }
}

/// The cell nodes of the givens among the first `i` cells, row-major.
pub open spec fn given_nodes_upto(g: Seq<u8>, i: int) -> Seq<int>
    decreases i,
{
    if i <= 0 {
        Seq::empty()
    } else if g[i - 1] == 0 {
        given_nodes_upto(g, i - 1)
    } else {
        given_nodes_upto(g, i - 1).push(gnode(i - 1, g[i - 1]))
    }
}

/// The cell nodes of all the givens of a grid.
pub open spec fn given_nodes(g: Seq<u8>) -> Seq<int> {
    given_nodes_upto(g, 81)
}

/// An all-blank board.
pub open spec fn blank81() -> Seq<u8> {
    Seq::new(81, |i: int| 0u8)
}

/// The grid the chosen rows decode to: each candidate writes its digit
/// into its cell, later writers last.
pub open spec fn decode_grid(ch: Seq<int>) -> Seq<u8>
    decreases ch.len(),
{
    if ch.len() == 0 {
        blank81()
    } else {
        decode_grid(ch.drop_last()).update(
            cand_cell(cand_of(ch.last())),
            cand_val(cand_of(ch.last())),
        )
    }
}

/// The given's cell node decodes back to its cell and digit, and its own
/// column is the cell constraint.
pub proof fn lemma_gnode(i: int, v: u8)
    requires
        0 <= i < 81,
        1 <= v <= 9,
    ensures
        is_row_node(gnode(i, v)),
        kind_of(gnode(i, v)) == 0,
        cand_of(gnode(i, v)) == cand_for(i, v),
        cand_cell(cand_for(i, v)) == i,
        cand_val(cand_for(i, v)) == v,
        node_head(gnode(i, v)) == 1 + i,
{
    let r = cand_for(i, v);
    lemma_divmod(i, v - 1, 9);
    lemma_node_at_inverse(r, 0);
    lemma_cand_coords(r);
    vstd::arithmetic::div_mod::lemma_fundamental_div_mod(i, 9);
    vstd::arithmetic::div_mod::lemma_mod_bound(i, 9);
    assert(r / 9 == i);
    assert(cand_x(r) * 9 + cand_y(r) == i);
}

/// Shape of the given-node list: each entry is the cell node of a filled
/// cell below `i`, cells strictly increase, and every filled cell below
/// `i` appears.
pub proof fn lemma_given_upto_char(g: Seq<u8>, i: int)
    requires
        grid_seq_wf(g),
        0 <= i <= 81,
    ensures
        forall|t: int|
            0 <= t < given_nodes_upto(g, i).len() ==> {
                let n = #[trigger] given_nodes_upto(g, i)[t];
                &&& is_row_node(n)
                &&& kind_of(n) == 0
                &&& 0 <= cand_cell(cand_of(n)) < i
                &&& g[cand_cell(cand_of(n))] != 0
                &&& n == gnode(cand_cell(cand_of(n)), g[cand_cell(cand_of(n))])
                &&& cand_val(cand_of(n)) == g[cand_cell(cand_of(n))]
            },
        forall|t1: int, t2: int|
            0 <= t1 < t2 < given_nodes_upto(g, i).len() ==> cand_cell(
                cand_of(#[trigger] given_nodes_upto(g, i)[t1]),
            ) < cand_cell(cand_of(#[trigger] given_nodes_upto(g, i)[t2])),
        forall|c: int|
            0 <= c < i && g[c] != 0 ==> given_nodes_upto(g, i).contains(gnode(c, #[trigger] g[c])),
        given_nodes_upto(g, i).len() <= i,
    decreases i,
{
    if i > 0 {
        lemma_given_upto_char(g, i - 1);
        if g[i - 1] != 0 {
            lemma_gnode(i - 1, g[i - 1]);
            let p = given_nodes_upto(g, i - 1);
            let n = gnode(i - 1, g[i - 1]);
            assert(given_nodes_upto(g, i) == p.push(n));
            assert forall|c: int|
                0 <= c < i && g[c] != 0 implies given_nodes_upto(g, i).contains(
                gnode(c, #[trigger] g[c]),
            ) by {
                if c < i - 1 {
                    let t = choose|t: int| 0 <= t < p.len() && p[t] == gnode(c, g[c]);
                    assert(p.push(n)[t] == gnode(c, g[c]));
                } else {
                    assert(p.push(n)[p.len() as int] == gnode(c, g[c]));
                }
            }
        }
    }
}

/// Decoding the given cell nodes of the first `i` cells writes exactly
/// the filled cells among them.
pub proof fn lemma_decode_upto(g: Seq<u8>, i: int)
    requires
        grid_seq_wf(g),
        0 <= i <= 81,
    ensures
        decode_grid(given_nodes_upto(g, i)) == Seq::new(
            81,
            |c: int|
                if c < i {
                    g[c]
                } else {
                    0u8
                },
        ),
    decreases i,
{
    if i == 0 {
        assert(decode_grid(Seq::empty()) == blank81());
        assert(blank81() =~= Seq::new(
            81,
            |c: int|
                if c < 0 {
                    g[c]
                } else {
                    0u8
                },
        ));
    } else {
        lemma_decode_upto(g, i - 1);
        let p = given_nodes_upto(g, i - 1);
        if g[i - 1] == 0 {
            assert(Seq::new(
                81,
                |c: int|
                    if c < i - 1 {
                        g[c]
                    } else {
                        0u8
                    },
            ) =~= Seq::new(
                81,
                |c: int|
                    if c < i {
                        g[c]
                    } else {
                        0u8
                    },
            ));
        } else {
            lemma_gnode(i - 1, g[i - 1]);
            let n = gnode(i - 1, g[i - 1]);
            assert(given_nodes_upto(g, i) == p.push(n));
            assert(p.push(n).drop_last() =~= p);
            assert(p.push(n).last() == n);
            assert(decode_grid(p.push(n)) == decode_grid(p).update(i - 1, g[i - 1]));
            assert(decode_grid(p).update(i - 1, g[i - 1]) =~= Seq::new(
                81,
                |c: int|
                    if c < i {
                        g[c]
                    } else {
                        0u8
                    },
            ));
        }
    }
}

/// Decoding the given rows alone reproduces the input grid exactly,
/// cell for cell — the construction-time self-check of the
/// materializer.
pub proof fn lemma_givens_decode(g: Seq<u8>)
    requires
        grid_seq_wf(g),
    ensures
        decode_grid(given_nodes(g)) == g,
{
    lemma_decode_upto(g, 81);
    assert(Seq::new(
        81,
        |c: int|
            if c < 81 {
                g[c]
            } else {
                0u8
            },
    ) =~= g);
}

/// Covering one more row appends its four columns.
pub proof fn lemma_covers_snoc(ch: Seq<int>, j: int)
    ensures
        covers_of(ch.push(j)) == covers_of(ch) + heads4(j),
{
    assert(ch.push(j).drop_last() =~= ch);
    assert(ch.push(j).last() == j);
}

/// Four columns per chosen row.
pub proof fn lemma_covers_len(ch: Seq<int>)
    ensures
        covers_of(ch).len() == 4 * ch.len(),
    decreases ch.len(),
{
    if ch.len() > 0 {
        lemma_covers_len(ch.drop_last());
    }
}

/// The cover list is the chosen rows' column quadruples laid end to end.
pub proof fn lemma_covers_index(ch: Seq<int>, d: int, t: int)
    requires
        0 <= d < ch.len(),
        0 <= t < 4,
    ensures
        covers_of(ch).len() == 4 * ch.len(),
        covers_of(ch)[4 * d + t] == heads4(ch[d])[t],
    decreases ch.len(),
{
    lemma_covers_len(ch);
    if d < ch.len() - 1 {
        lemma_covers_index(ch.drop_last(), d, t);
        lemma_covers_len(ch.drop_last());
    } else {
        lemma_covers_len(ch.drop_last());
    }
}

/// A column is covered exactly when some chosen row touches it.
pub proof fn lemma_covers_member(ch: Seq<int>, y: int)
    ensures
        covers_of(ch).contains(y) <==> exists|d: int, t: int|
            0 <= d < ch.len() && 0 <= t < 4 && #[trigger] heads4(ch[d])[t] == y,
{
    lemma_covers_len(ch);
    if covers_of(ch).contains(y) {
        let i = choose|i: int| 0 <= i < covers_of(ch).len() && covers_of(ch)[i] == y;
        lemma_divmod(i / 4, i % 4, 4);
        vstd::arithmetic::div_mod::lemma_fundamental_div_mod(i, 4);
        vstd::arithmetic::div_mod::lemma_mod_bound(i, 4);
        let d = i / 4;
        let t = i % 4;
        assert(0 <= d < ch.len()) by (nonlinear_arith)
            requires
                0 <= i < 4 * ch.len() && d == i / 4,
        ;
        lemma_covers_index(ch, d, t);
        assert(heads4(ch[d])[t] == y);
    }
    if exists|d: int, t: int| 0 <= d < ch.len() && 0 <= t < 4 && #[trigger] heads4(ch[d])[t] == y {
        let (d, t) = choose|d: int, t: int|
            0 <= d < ch.len() && 0 <= t < 4 && #[trigger] heads4(ch[d])[t] == y;
        lemma_covers_index(ch, d, t);
        assert(covers_of(ch)[4 * d + t] == y);
    }
}

/// For a cell node, the four columns of its row are the four constraint
/// kinds of its candidate, in kind order.
pub proof fn lemma_heads4_gnode(i: int, v: u8)
    requires
        0 <= i < 81,
        1 <= v <= 9,
    ensures
        forall|t: int|
            0 <= t < 4 ==> #[trigger] heads4(gnode(i, v))[t] == node_head(
                node_at(cand_for(i, v), t),
            ),
        forall|t: int| 0 <= t < 4 ==> is_header(#[trigger] heads4(gnode(i, v))[t]),
{
    let r = cand_for(i, v);
    let j = gnode(i, v);
    lemma_gnode(i, v);
    lemma_rnext(j);
    lemma_rnext(rnext(j));
    lemma_rnext(rnext(rnext(j)));
    lemma_node_at_inverse(r, 0);
    lemma_vmem_of_node(j);
    lemma_vmem_of_node(rnext(j));
    lemma_vmem_of_node(rnext(rnext(j)));
    lemma_vmem_of_node(rnext(rnext(rnext(j))));
    assert(rnext(j) == node_at(r, 1));
    assert(rnext(rnext(j)) == node_at(r, 2));
    assert(rnext(rnext(rnext(j))) == node_at(r, 3));
}

/// Two distinct cells share a constraint column exactly when they
/// collide: same digit in the same row, column or box.
#[verifier::rlimit(100)]
pub proof fn lemma_heads_shared(i1: int, v1: u8, i2: int, v2: u8)
    requires
        0 <= i1 < 81,
        0 <= i2 < 81,
        i1 != i2,
        1 <= v1 <= 9,
        1 <= v2 <= 9,
    ensures
        (exists|k1: int, k2: int|
            0 <= k1 < 4 && 0 <= k2 < 4 && node_head(#[trigger] node_at(cand_for(i1, v1), k1))
                == node_head(#[trigger] node_at(cand_for(i2, v2), k2))) <==> cells_collide(
            i1,
            i2,
            v1,
            v2,
        ),
{
    let r1 = cand_for(i1, v1);
    let r2 = cand_for(i2, v2);
    lemma_gnode(i1, v1);
    lemma_gnode(i2, v2);
    lemma_cand_coords(r1);
    lemma_cand_coords(r2);
    lemma_divmod(i1, v1 - 1, 9);
    lemma_divmod(i2, v2 - 1, 9);
    vstd::arithmetic::div_mod::lemma_fundamental_div_mod(i1, 9);
    vstd::arithmetic::div_mod::lemma_fundamental_div_mod(i2, 9);
    vstd::arithmetic::div_mod::lemma_mod_bound(i1, 9);
    vstd::arithmetic::div_mod::lemma_mod_bound(i2, 9);
    assert(r1 / 9 == i1 && r2 / 9 == i2);
    assert(cand_x(r1) == i1 / 9 && cand_y(r1) == i1 % 9 && cand_z(r1) == v1 - 1) by {
        lemma_divmod(i1 / 9, i1 % 9, 9);
    }
    assert(cand_x(r2) == i2 / 9 && cand_y(r2) == i2 % 9 && cand_z(r2) == v2 - 1) by {
        lemma_divmod(i2 / 9, i2 % 9, 9);
    }
    let k1w = choose|k1: int, k2: int|
        0 <= k1 < 4 && 0 <= k2 < 4 && node_head(#[trigger] node_at(r1, k1)) == node_head(
            #[trigger] node_at(r2, k2),
        );
    assert forall|k: int| 0 <= k < 4 implies node_head(#[trigger] node_at(r1, k)) == head_formula(
        r1,
        k,
    ) && node_head(#[trigger] node_at(r2, k)) == head_formula(r2, k) by {
        lemma_node_at_inverse(r1, k);
        lemma_node_at_inverse(r2, k);
    }
    if cells_collide(i1, i2, v1, v2) {
        if i1 / 9 == i2 / 9 {
            assert(node_head(node_at(r1, 1)) == node_head(node_at(r2, 1)));
        } else if i1 % 9 == i2 % 9 {
            assert(node_head(node_at(r1, 2)) == node_head(node_at(r2, 2)));
        } else {
            assert(cand_box(r1) == cand_box(r2)) by {
                assert(i1 / 9 / 3 == i2 / 9 / 3 && i1 % 9 / 3 == i2 % 9 / 3);
            }
            assert(node_head(node_at(r1, 3)) == node_head(node_at(r2, 3)));
        }
    }
    if exists|k1: int, k2: int|
        0 <= k1 < 4 && 0 <= k2 < 4 && node_head(#[trigger] node_at(r1, k1)) == node_head(
            #[trigger] node_at(r2, k2),
        ) {
        let (k1, k2) = choose|k1: int, k2: int|
            0 <= k1 < 4 && 0 <= k2 < 4 && node_head(#[trigger] node_at(r1, k1)) == node_head(
                #[trigger] node_at(r2, k2),
            );
        lemma_node_at_inverse(r1, k1);
        lemma_node_at_inverse(r2, k2);
        lemma_head_range(node_at(r1, k1));
        lemma_head_range(node_at(r2, k2));
        assert(k1 == k2);
        if k1 == 0 {
            assert(i1 == i2);
        } else if k1 == 3 {
            assert(cand_box(r1) == cand_box(r2) && cand_z(r1) == cand_z(r2));
            assert(i1 / 9 / 3 == i2 / 9 / 3 && i1 % 9 / 3 == i2 % 9 / 3) by {
                lemma_divmod(i1 / 9 / 3, i1 % 9 / 3, 3);
                lemma_divmod(i2 / 9 / 3, i2 % 9 / 3, 3);
                vstd::arithmetic::div_mod::lemma_fundamental_div_mod(i1 / 9, 3);
                vstd::arithmetic::div_mod::lemma_fundamental_div_mod(i2 / 9, 3);
                vstd::arithmetic::div_mod::lemma_mod_bound(i1 / 9, 3);
                vstd::arithmetic::div_mod::lemma_mod_bound(i2 / 9, 3);
                vstd::arithmetic::div_mod::lemma_fundamental_div_mod(i1 % 9, 3);
                vstd::arithmetic::div_mod::lemma_fundamental_div_mod(i2 % 9, 3);
                vstd::arithmetic::div_mod::lemma_mod_bound(i1 % 9, 3);
                vstd::arithmetic::div_mod::lemma_mod_bound(i2 % 9, 3);
                lemma_divmod((i1 / 9 / 3) * 3 + i1 % 9 / 3, 0, 1);
            }
        }
    }
}

/// The constraint column of kind `k` for a candidate, written out.
pub open spec fn head_formula(r: int, k: int) -> int {
    if k == 0 {
        1 + cand_x(r) * 9 + cand_y(r)
    } else if k == 1 {
        82 + cand_x(r) * 9 + cand_z(r)
    } else if k == 2 {
        163 + cand_y(r) * 9 + cand_z(r)
    } else {
        244 + cand_box(r) * 9 + cand_z(r)
    }
}

/// One cover's bookkeeping: the covered-column list gains the column,
/// stays duplicate-free, and the live set loses exactly that column.
pub proof fn lemma_cover_bookkeep(tr: Seq<Frame>, headers: Seq<int>, f: Frame, c: int)
    requires
        f.h == c,
        headers.no_duplicates(),
        headers.contains(c),
        trail_hs(tr).no_duplicates(),
        forall|y: int| headers.contains(y) <==> (is_header(y) && !trail_hs(tr).contains(y)),
    ensures
        trail_hs(tr.push(f)) == trail_hs(tr).push(c),
        trail_hs(tr.push(f)).no_duplicates(),
        forall|y: int|
            headers.remove_value(c).contains(y) <==> (is_header(y) && !trail_hs(
                tr.push(f),
            ).contains(y)),
{
    broadcast use vstd::seq_lib::lemma_seq_contains_after_push;

    assert(trail_hs(tr.push(f)) =~= trail_hs(tr).push(c));
    lemma_remove_value_char(headers, c);
    assert(headers.contains(c) <==> (is_header(c) && !trail_hs(tr).contains(c)));
    assert(!trail_hs(tr).contains(c));
    assert forall|y: int|
        headers.remove_value(c).contains(y) <==> (is_header(y) && !trail_hs(
        tr.push(f),
    ).contains(y)) by {
        assert(headers.contains(y) <==> (is_header(y) && !trail_hs(tr).contains(y)));
        assert(trail_hs(tr).push(c).contains(y) <==> (trail_hs(tr).contains(y) || y == c));
    }
}

/// A shared constraint column between two distinct given cells is a
/// conflict of the grid.
pub proof fn lemma_shared_gives_conflict(g: Seq<u8>, c1: int, c2: int, k1: int, k2: int)
    requires
        grid_seq_wf(g),
        0 <= c1 < 81,
        0 <= c2 < 81,
        c1 != c2,
        g[c1] != 0,
        g[c2] != 0,
        0 <= k1 < 4,
        0 <= k2 < 4,
        node_head(node_at(cand_for(c1, g[c1]), k1)) == node_head(node_at(cand_for(c2, g[c2]), k2)),
    ensures
        grid_conflict(g),
{
    lemma_heads_shared(c1, g[c1], c2, g[c2]);
    assert(cells_collide(c1, c2, g[c1], g[c2]));
    if c1 < c2 {
        assert(0 <= c1 < c2 < 81 && g[c1] != 0 && g[c2] != 0 && cells_collide(
            c1,
            c2,
            g[c1],
            g[c2],
        ));
    } else {
        assert(cells_collide(c2, c1, g[c2], g[c1]));
        assert(0 <= c2 < c1 < 81 && g[c2] != 0 && g[c1] != 0 && cells_collide(
            c2,
            c1,
            g[c2],
            g[c1],
        ));
    }
}

/// If covering every given went through without meeting an already
/// covered column, no two givens collide.
pub proof fn lemma_no_dup_no_conflict(g: Seq<u8>)
    requires
        grid_seq_wf(g),
        covers_of(given_nodes(g)).no_duplicates(),
    ensures
        !grid_conflict(g),
{
    if grid_conflict(g) {
        let (a, b) = choose|a: int, b: int|
            0 <= a < b < 81 && g[a] != 0 && g[b] != 0 && cells_collide(a, b, g[a], g[b]);
        lemma_given_upto_char(g, 81);
        let gs = given_nodes(g);
        assert(gs.contains(gnode(a, g[a])));
        assert(gs.contains(gnode(b, g[b])));
        let t1 = choose|t: int| 0 <= t < gs.len() && gs[t] == gnode(a, g[a]);
        let t2 = choose|t: int| 0 <= t < gs.len() && gs[t] == gnode(b, g[b]);
        lemma_gnode(a, g[a]);
        lemma_gnode(b, g[b]);
        assert(t1 != t2) by {
            assert(cand_cell(cand_of(gs[t1])) == a && cand_cell(cand_of(gs[t2])) == b);
        }
        lemma_heads_shared(a, g[a], b, g[b]);
        let (k1, k2) = choose|k1: int, k2: int|
            0 <= k1 < 4 && 0 <= k2 < 4 && node_head(
                #[trigger] node_at(cand_for(a, g[a]), k1),
            ) == node_head(#[trigger] node_at(cand_for(b, g[b]), k2));
        lemma_heads4_gnode(a, g[a]);
        lemma_heads4_gnode(b, g[b]);
        lemma_covers_index(gs, t1, k1);
        lemma_covers_index(gs, t2, k2);
        assert(covers_of(gs)[4 * t1 + k1] == covers_of(gs)[4 * t2 + k2]);
        assert(4 * t1 + k1 != 4 * t2 + k2) by (nonlinear_arith)
            requires
                t1 != t2 && 0 <= k1 < 4 && 0 <= k2 < 4,
        ;
        assert(false);
    }
}

/// Meeting an already covered column while covering a given's columns
/// witnesses a conflict between two givens.
#[verifier::rlimit(100)]
pub proof fn lemma_err_conflict(g: Seq<u8>, t: int, u: int, c: int)
    requires
        grid_seq_wf(g),
        0 <= t < given_nodes(g).len(),
        0 <= u < 4,
        c == heads4(given_nodes(g)[t])[u],
        (covers_of(given_nodes(g).take(t)) + heads4(given_nodes(g)[t]).take(u)).contains(c),
    ensures
        grid_conflict(g),
{
    lemma_given_upto_char(g, 81);
    let gseq = given_nodes(g);
    let j = gseq[t];
    let cell = cand_cell(cand_of(j));
    let v = g[cell];
    assert(j == gnode(cell, v) && g[cell] != 0);
    lemma_gnode(cell, v);
    lemma_heads4_gnode(cell, v);
    let hs0 = covers_of(gseq.take(t));
    let part = heads4(j).take(u);
    if part.contains(c) {
        let u2 = choose|u2: int| 0 <= u2 < u && part[u2] == c;
        lemma_node_at_inverse(cand_for(cell, v), u2);
        lemma_node_at_inverse(cand_for(cell, v), u);
        lemma_head_range(node_at(cand_for(cell, v), u2));
        lemma_head_range(node_at(cand_for(cell, v), u));
        assert(false);
    }
    assert(hs0.contains(c)) by {
        let q = choose|q: int| 0 <= q < (hs0 + part).len() && (hs0 + part)[q] == c;
        if q < hs0.len() {
            assert(hs0[q] == c);
        } else {
            assert(part[q - hs0.len()] == c);
        }
    }
    lemma_covers_member(gseq.take(t), c);
    let (t2, k2) = choose|t2: int, k2: int|
        0 <= t2 < gseq.take(t).len() && 0 <= k2 < 4 && #[trigger] heads4(gseq.take(t)[t2])[k2]
            == c;
    let n2 = gseq[t2];
    let cell2 = cand_cell(cand_of(n2));
    let v2 = g[cell2];
    assert(n2 == gnode(cell2, v2) && g[cell2] != 0);
    lemma_heads4_gnode(cell2, v2);
    assert(cell2 != cell);
    lemma_shared_gives_conflict(g, cell2, cell, k2, u);
}

/// The arena is exactly the fold of the covers performed so far over
/// the fresh machine state.
pub open spec fn arena_is_fold(d: Dlx, im: EngineV) -> bool {
    let w = covers_fold(im, trail_hs(d.trail()));
    &&& w.s == d.lstate()
    &&& w.headers == d.live_headers()
    &&& w.cols == d.live_cols()
    &&& w.trail == d.trail()
}

/// The invariant of the given-covering pass: the covered table mirrors
/// the trail, the live set is its complement, and no column was covered
/// twice.
pub open spec fn cover_pass_ok(d: Dlx, covered: Seq<bool>) -> bool {
    &&& d.wf()
    &&& covered.len() == N_HEADERS + 1
    &&& forall|c: int|
        0 <= c <= N_HEADERS ==> ((#[trigger] covered[c]) <==> trail_hs(d.trail()).contains(c))
    &&& forall|y: int|
        d.live_headers().contains(y) <==> (is_header(y) && !trail_hs(d.trail()).contains(y))
    &&& trail_hs(d.trail()).no_duplicates()
    &&& if d.trail().len() == 0 {
        d.live_headers() == full_headers()
    } else {
        d.trail()[0].pre_headers == full_headers()
    }
}

/// Every frame of a valid trail is well formed, and each one's cover
/// leads exactly to the next recorded state, the last one to now.
pub proof fn lemma_trail_chain(
    tr: Seq<Frame>,
    s: LState,
    hd: Seq<int>,
    cl: Map<int, Seq<int>>,
    k: int,
)
    requires
        trail_ok(tr, s, hd, cl),
        0 <= k < tr.len(),
    ensures
        frame_ok(tr[k]),
        k < tr.len() - 1 ==> {
            &&& tr[k + 1].pre == frame_next_state(tr[k])
            &&& tr[k + 1].pre_headers == frame_next_headers(tr[k])
            &&& tr[k + 1].pre_cols == frame_next_cols(tr[k])
        },
        k == tr.len() - 1 ==> {
            &&& s == frame_next_state(tr[k])
            &&& hd == frame_next_headers(tr[k])
            &&& cl == frame_next_cols(tr[k])
        },
    decreases tr.len(),
{
    let f = tr.last();
    if k == tr.len() - 1 {
    } else {
        lemma_trail_chain(tr.drop_last(), f.pre, f.pre_headers, f.pre_cols, k);
        assert(tr.drop_last()[k] == tr[k]);
        if k < tr.len() - 2 {
            assert(tr.drop_last()[k + 1] == tr[k + 1]);
        }
    }
}

/// What the trail says about the live set: a column is live exactly when
/// the original ring had it and no cover on the trail removed it; and no
/// column is covered twice.
pub proof fn lemma_trail_headers(tr: Seq<Frame>, s: LState, hd: Seq<int>, cl: Map<int, Seq<int>>)
    requires
        trail_ok(tr, s, hd, cl),
        tr.len() > 0,
    ensures
        forall|y: int|
            hd.contains(y) <==> (tr[0].pre_headers.contains(y) && !trail_hs(tr).contains(y)),
        trail_hs(tr).no_duplicates(),
    decreases tr.len(),
{
    broadcast use vstd::seq_lib::lemma_seq_contains_after_push;

    let f = tr.last();
    assert(frame_ok(f));
    assert(hd == f.pre_headers.remove_value(f.h));
    lemma_remove_value_char(f.pre_headers, f.h);
    assert(trail_hs(tr) =~= trail_hs(tr.drop_last()).push(f.h));
    if tr.len() == 1 {
        assert(trail_hs(tr.drop_last()) =~= Seq::<int>::empty());
        assert(tr[0] == f);
    } else {
        lemma_trail_headers(tr.drop_last(), f.pre, f.pre_headers, f.pre_cols);
        assert(tr.drop_last()[0] == tr[0]);
        assert(!trail_hs(tr.drop_last()).contains(f.h)) by {
            assert(f.pre_headers.contains(f.h));
        }
        assert forall|y: int|
            hd.contains(y) <==> (tr[0].pre_headers.contains(y) && !trail_hs(tr).contains(y)) by {
            assert(f.pre_headers.contains(y) <==> (tr[0].pre_headers.contains(y) && !trail_hs(
                tr.drop_last(),
            ).contains(y)));
            assert(hd.contains(y) <==> (f.pre_headers.contains(y) && y != f.h));
            assert(trail_hs(tr).contains(y) <==> (trail_hs(tr.drop_last()).contains(y) || y
                == f.h));
        }
    }
}

/// The three sibling columns of a freshly chosen row are still live
/// after its own column's cover, and stay live as they are covered one
/// after the other.
#[verifier::rlimit(100)]
pub proof fn lemma_siblings_live(f: Frame, j: int)
    requires
        frame_ok(f),
        is_row_node(j),
        f.h == node_head(j),
        f.pre_cols[f.h].contains(j),
    ensures
        frame_next_headers(f).contains(node_head(others(j)[0])),
        frame_next_headers(f).remove_value(node_head(others(j)[0])).contains(
            node_head(others(j)[1]),
        ),
        frame_next_headers(f).remove_value(node_head(others(j)[0])).remove_value(
            node_head(others(j)[1]),
        ).contains(node_head(others(j)[2])),
{
    let kj = choose|kj: int| 0 <= kj < f.pre_cols[f.h].len() && f.pre_cols[f.h][kj] == j;
    assert(f.pre_cols[f.h][kj] == j);
    assert(others_live(f.pre_headers, f.pre_cols, f.pre_cols[f.h][kj]));
    lemma_others_shape(j);
    let h1 = node_head(others(j)[0]);
    let h2 = node_head(others(j)[1]);
    let h3 = node_head(others(j)[2]);
    assert(live_node(f.pre_headers, f.pre_cols, others(j)[0]));
    assert(live_node(f.pre_headers, f.pre_cols, others(j)[1]));
    assert(live_node(f.pre_headers, f.pre_cols, others(j)[2]));
    lemma_remove_value_char(f.pre_headers, f.h);
    let fnh = frame_next_headers(f);
    assert(fnh.contains(h1) && fnh.contains(h2) && fnh.contains(h3));
    lemma_remove_value_no_dup(f.pre_headers, f.h);
    lemma_remove_value_char(fnh, h1);
    lemma_remove_value_no_dup(fnh, h1);
    lemma_remove_value_char(fnh.remove_value(h1), h2);
}

/// After covering the three sibling columns, the trail lists exactly the
/// covers of all chosen rows.
pub proof fn lemma_hs_after3(hs0: Seq<int>, ch0: Seq<int>, j: int)
    requires
        ch0.len() > 0,
        ch0.last() == j,
        hs0 == covers_of(ch0.drop_last()).push(node_head(j)),
    ensures
        hs0.push(node_head(others(j)[0])).push(node_head(others(j)[1])).push(
            node_head(others(j)[2]),
        ) == covers_of(ch0),
{
    assert(hs0.push(node_head(others(j)[0])).push(node_head(others(j)[1])).push(
        node_head(others(j)[2]),
    ) =~= covers_of(ch0.drop_last()) + heads4(j));
}

/// Splitting the cover list of a non-empty choice stack: the last four
/// entries are the last row's columns, in kind-walk order.
pub proof fn lemma_hs_take(ch: Seq<int>)
    requires
        ch.len() > 0,
    ensures
        covers_of(ch).len() == 4 * ch.len(),
        covers_of(ch).take(4 * ch.len() - 3) == covers_of(ch.drop_last()).push(
            heads4(ch.last())[0],
        ),
        covers_of(ch).take(4 * ch.len() - 4) == covers_of(ch.drop_last()),
        covers_of(ch)[4 * ch.len() - 1] == heads4(ch.last())[3],
        covers_of(ch)[4 * ch.len() - 2] == heads4(ch.last())[2],
        covers_of(ch)[4 * ch.len() - 3] == heads4(ch.last())[1],
        covers_of(ch)[4 * ch.len() - 4] == heads4(ch.last())[0],
{
    lemma_covers_len(ch);
    lemma_covers_len(ch.drop_last());
    assert(covers_of(ch) == covers_of(ch.drop_last()) + heads4(ch.last()));
    assert(covers_of(ch).take(4 * ch.len() - 3) =~= covers_of(ch.drop_last()).push(
        heads4(ch.last())[0],
    ));
    assert(covers_of(ch).take(4 * ch.len() - 4) =~= covers_of(ch.drop_last()));
}

/// A node's column header, written out by constraint kind.
pub proof fn lemma_node_head_formula(n: int)
    requires
        is_row_node(n),
    ensures
        node_head(n) == head_formula(cand_of(n), kind_of(n)),
        is_header(node_head(n)),
        1 + 81 * kind_of(n) <= node_head(n) < 1 + 81 * (kind_of(n) + 1),
{
    lemma_vmem_of_node(n);
    lemma_head_range(n);
}

/// The four columns of a candidate node's row are the four constraint
/// kinds of its candidate, in some order.
#[verifier::rlimit(100)]
#[verifier::spinoff_prover]
pub proof fn lemma_heads4_perm(n: int)
    requires
        is_row_node(n),
    ensures
        forall|t: int|
            0 <= t < 4 ==> exists|k: int|
                0 <= k < 4 && #[trigger] heads4(n)[t] == head_formula(cand_of(n), k),
        forall|k: int|
            0 <= k < 4 ==> exists|t: int|
                0 <= t < 4 && #[trigger] head_formula(cand_of(n), k) == heads4(n)[t],
{
    let r = cand_of(n);
    let m0 = n;
    let m1 = rnext(n);
    let m2 = rnext(m1);
    let m3 = rnext(m2);
    lemma_rnext(m0);
    lemma_rnext(m1);
    lemma_rnext(m2);
    lemma_node_head_formula(m0);
    lemma_node_head_formula(m1);
    lemma_node_head_formula(m2);
    lemma_node_head_formula(m3);
    assert(heads4(n)[0] == node_head(m0));
    assert(heads4(n)[1] == node_head(m1));
    assert(heads4(n)[2] == node_head(m2));
    assert(heads4(n)[3] == node_head(m3));
    let k0 = kind_of(m0);
    let k1 = kind_of(m1);
    let k2 = kind_of(m2);
    let k3 = kind_of(m3);
    assert(k0 != k1 && k0 != k2 && k0 != k3 && k1 != k2 && k1 != k3 && k2 != k3);
    assert forall|t: int| 0 <= t < 4 implies exists|k: int|
        0 <= k < 4 && #[trigger] heads4(n)[t] == head_formula(cand_of(n), k) by {
        if t == 0 {
            assert(heads4(n)[0] == head_formula(r, k0));
        } else if t == 1 {
            assert(heads4(n)[1] == head_formula(r, k1));
        } else if t == 2 {
            assert(heads4(n)[2] == head_formula(r, k2));
        } else {
            assert(heads4(n)[3] == head_formula(r, k3));
        }
    }
    assert forall|k: int| 0 <= k < 4 implies exists|t: int|
        0 <= t < 4 && #[trigger] head_formula(cand_of(n), k) == heads4(n)[t] by {
        if k == k0 {
            assert(head_formula(r, k) == heads4(n)[0]);
        } else if k == k1 {
            assert(head_formula(r, k) == heads4(n)[1]);
        } else if k == k2 {
            assert(head_formula(r, k) == heads4(n)[2]);
        } else {
            assert(k == k3);
            assert(head_formula(r, k) == heads4(n)[3]);
        }
    }
}

/// When no column was covered twice, no two chosen rows are equal and
/// no two fill the same cell.
#[verifier::rlimit(100)]
#[verifier::spinoff_prover]
pub proof fn lemma_ch_cells_distinct(ch: Seq<int>, d1: int, d2: int)
    requires
        covers_of(ch).no_duplicates(),
        forall|d: int| 0 <= d < ch.len() ==> is_row_node(#[trigger] ch[d]),
        0 <= d1 < ch.len(),
        0 <= d2 < ch.len(),
        d1 != d2,
    ensures
        cand_cell(cand_of(ch[d1])) != cand_cell(cand_of(ch[d2])),
        ch[d1] != ch[d2],
{
    let n1 = ch[d1];
    let n2 = ch[d2];
    lemma_vmem_of_node(n1);
    lemma_vmem_of_node(n2);
    lemma_cand_coords(cand_of(n1));
    lemma_cand_coords(cand_of(n2));
    lemma_heads4_perm(n1);
    lemma_heads4_perm(n2);
    if cand_cell(cand_of(n1)) == cand_cell(cand_of(n2)) {
        // both rows' column sets hold the shared cell constraint
        let y = head_formula(cand_of(n1), 0);
        assert(head_formula(cand_of(n2), 0) == y);
        let t1 = choose|t: int| 0 <= t < 4 && head_formula(cand_of(n1), 0) == heads4(n1)[t];
        let t2 = choose|t: int| 0 <= t < 4 && head_formula(cand_of(n2), 0) == heads4(n2)[t];
        lemma_covers_index(ch, d1, t1);
        lemma_covers_index(ch, d2, t2);
        assert(covers_of(ch)[4 * d1 + t1] == y && covers_of(ch)[4 * d2 + t2] == y);
        assert(4 * d1 + t1 != 4 * d2 + t2) by (nonlinear_arith)
            requires
                d1 != d2 && 0 <= t1 < 4 && 0 <= t2 < 4,
        ;
        assert(false);
    }
}

/// What the decoded grid holds, cell by cell, when every chosen row
/// fills its own cell: the chosen digit where a row covers the cell,
/// blank where none does.
pub proof fn lemma_decode_char(bd: Seq<int>)
    requires
        forall|d: int| 0 <= d < bd.len() ==> is_row_node(#[trigger] bd[d]),
        forall|d1: int, d2: int|
            0 <= d1 < d2 < bd.len() ==> cand_cell(cand_of(#[trigger] bd[d1])) != cand_cell(
                cand_of(#[trigger] bd[d2]),
            ),
    ensures
        decode_grid(bd).len() == 81,
        forall|d: int|
            0 <= d < bd.len() ==> decode_grid(bd)[cand_cell(cand_of(#[trigger] bd[d]))]
                == cand_val(cand_of(bd[d])),
        forall|c: int|
            0 <= c < 81 && decode_grid(bd)[c] != 0 ==> exists|d: int|
                0 <= d < bd.len() && cand_cell(cand_of(#[trigger] bd[d])) == c,
        forall|c: int| 0 <= c < 81 ==> decode_grid(bd)[c] <= 9,
    decreases bd.len(),
{
    if bd.len() == 0 {
    } else {
        let p = bd.drop_last();
        let n = bd.last();
        lemma_decode_char(p);
        lemma_vmem_of_node(n);
        lemma_cand_coords(cand_of(n));
        assert forall|c: int|
            0 <= c < 81 && decode_grid(bd)[c] != 0 implies exists|d: int|
            0 <= d < bd.len() && cand_cell(cand_of(#[trigger] bd[d])) == c by {
            if c == cand_cell(cand_of(n)) {
                assert(cand_cell(cand_of(bd[bd.len() - 1])) == c);
            } else {
                assert(decode_grid(p)[c] != 0);
                let d = choose|d: int| 0 <= d < p.len() && cand_cell(cand_of(p[d])) == c;
                assert(cand_cell(cand_of(bd[d])) == c);
            }
        }
        assert forall|d: int|
            0 <= d < bd.len() implies decode_grid(bd)[cand_cell(cand_of(#[trigger] bd[d]))]
            == cand_val(cand_of(bd[d])) by {
            if d < bd.len() - 1 {
                assert(p[d] == bd[d]);
                assert(cand_cell(cand_of(bd[d])) != cand_cell(cand_of(n)));
            }
        }
    }
}

/// The heart of solution soundness: when the chosen rows' columns cover
/// every constraint exactly once, the decoded board is a complete valid
/// solution of the puzzle.
#[verifier::rlimit(100)]
#[verifier::spinoff_prover]
pub proof fn lemma_sound_core(gseq: Seq<int>, sseq: Seq<int>, g: Seq<u8>)
    requires
        grid_seq_wf(g),
        gseq == given_nodes(g),
        forall|k: int| 0 <= k < sseq.len() ==> is_row_node(#[trigger] sseq[k]),
        covers_of(gseq + sseq).no_duplicates(),
        forall|y: int| is_header(y) ==> (covers_of(gseq + sseq)).contains(y),
    ensures
        is_solution(decode_grid(sseq + gseq), g),
{
    let ch = gseq + sseq;
    let bd = sseq + gseq;
    let sol = decode_grid(bd);
    lemma_given_upto_char(g, 81);
    assert forall|d: int| 0 <= d < ch.len() implies is_row_node(#[trigger] ch[d]) by {
        if d < gseq.len() {
            assert(ch[d] == gseq[d]);
        } else {
            assert(ch[d] == sseq[d - gseq.len()]);
        }
    }
    assert forall|d: int| 0 <= d < bd.len() implies is_row_node(#[trigger] bd[d]) by {
        if d < sseq.len() {
            assert(bd[d] == ch[gseq.len() + d]);
        } else {
            assert(bd[d] == ch[d - sseq.len()]);
        }
    }
    assert forall|d1: int, d2: int|
        0 <= d1 < d2 < bd.len() implies cand_cell(cand_of(#[trigger] bd[d1])) != cand_cell(
        cand_of(#[trigger] bd[d2]),
    ) by {
        let c1: int = if d1 < sseq.len() {
            gseq.len() + d1
        } else {
            d1 - sseq.len()
        };
        let c2: int = if d2 < sseq.len() {
            gseq.len() + d2
        } else {
            d2 - sseq.len()
        };
        assert(bd[d1] == ch[c1] && bd[d2] == ch[c2]);
        lemma_ch_cells_distinct(ch, c1, c2);
    }
    lemma_decode_char(bd);
    // every cell is covered by exactly one chosen row, so every cell is
    // filled with that row's digit
    assert forall|c: int| 0 <= c < 81 implies 1 <= #[trigger] sol[c] <= 9 by {
        let y = 1 + c;
        assert(is_header(y));
        assert(covers_of(ch).contains(y));
        lemma_covers_member(ch, y);
        let (d, t) = choose|d: int, t: int|
            0 <= d < ch.len() && 0 <= t < 4 && #[trigger] heads4(ch[d])[t] == y;
        let n = ch[d];
        lemma_heads4_perm(n);
        lemma_vmem_of_node(n);
        lemma_cand_coords(cand_of(n));
        let k = choose|k: int| 0 <= k < 4 && heads4(n)[t] == head_formula(cand_of(n), k);
        assert(k == 0);
        assert(cand_cell(cand_of(n)) == c);
        let db: int = if d < gseq.len() {
            sseq.len() + d
        } else {
            d - gseq.len()
        };
        assert(bd[db] == n);
        assert(sol[cand_cell(cand_of(bd[db]))] == cand_val(cand_of(bd[db])));
    }
    // the givens keep their digits: each given's own cell node is among
    // the decoded rows
    assert forall|c: int| 0 <= c < 81 && g[c] != 0 implies #[trigger] sol[c] == g[c] by {
        assert(gseq.contains(gnode(c, g[c])));
        let t = choose|t: int| 0 <= t < gseq.len() && gseq[t] == gnode(c, g[c]);
        lemma_gnode(c, g[c]);
        let db = sseq.len() + t;
        assert(bd[db] == gnode(c, g[c]));
        assert(sol[cand_cell(cand_of(bd[db]))] == cand_val(cand_of(bd[db])));
    }
    // no two cells collide: colliding digits would mean two chosen rows
    // sharing a row-digit, column-digit or box-digit column
    assert(!grid_conflict(sol)) by {
        if grid_conflict(sol) {
            let (a, b) = choose|a: int, b: int|
                0 <= a < b < 81 && sol[a] != 0 && sol[b] != 0 && cells_collide(a, b, sol[a], sol[b]);
            let da = choose|d: int| 0 <= d < bd.len() && cand_cell(cand_of(#[trigger] bd[d])) == a;
            let db_ = choose|d: int| 0 <= d < bd.len() && cand_cell(cand_of(#[trigger] bd[d])) == b;
            let na = bd[da];
            let nb = bd[db_];
            let v = sol[a];
            assert(sol[cand_cell(cand_of(bd[da]))] == cand_val(cand_of(bd[da])));
            assert(sol[cand_cell(cand_of(bd[db_]))] == cand_val(cand_of(bd[db_])));
            assert(cand_val(cand_of(na)) == v && cand_val(cand_of(nb)) == v);
            lemma_vmem_of_node(na);
            lemma_vmem_of_node(nb);
            lemma_cand_coords(cand_of(na));
            lemma_cand_coords(cand_of(nb));
            assert(cand_of(na) == cand_for(a, v)) by {
                vstd::arithmetic::div_mod::lemma_fundamental_div_mod(cand_of(na), 9);
            }
            assert(cand_of(nb) == cand_for(b, v)) by {
                vstd::arithmetic::div_mod::lemma_fundamental_div_mod(cand_of(nb), 9);
            }
            lemma_heads_shared(a, v, b, v);
            let (k1, k2) = choose|k1: int, k2: int|
                0 <= k1 < 4 && 0 <= k2 < 4 && node_head(#[trigger] node_at(cand_for(a, v), k1))
                    == node_head(#[trigger] node_at(cand_for(b, v), k2));
            lemma_node_at_inverse(cand_for(a, v), k1);
            lemma_node_at_inverse(cand_for(b, v), k2);
            lemma_node_head_formula(node_at(cand_for(a, v), k1));
            lemma_node_head_formula(node_at(cand_for(b, v), k2));
            let y = head_formula(cand_for(a, v), k1);
            assert(head_formula(cand_for(b, v), k2) == y);
            lemma_heads4_perm(na);
            lemma_heads4_perm(nb);
            let t1 = choose|t: int| 0 <= t < 4 && head_formula(cand_of(na), k1) == heads4(na)[t];
            let t2 = choose|t: int| 0 <= t < 4 && head_formula(cand_of(nb), k2) == heads4(nb)[t];
            let ca: int = if da < sseq.len() {
                gseq.len() + da
            } else {
                da - sseq.len()
            };
            let cb: int = if db_ < sseq.len() {
                gseq.len() + db_
            } else {
                db_ - sseq.len()
            };
            assert(ch[ca] == na && ch[cb] == nb);
            assert(ca != cb) by {
                assert(cand_cell(cand_of(na)) != cand_cell(cand_of(nb)));
            }
            lemma_covers_index(ch, ca, t1);
            lemma_covers_index(ch, cb, t2);
            assert(covers_of(ch)[4 * ca + t1] == y && covers_of(ch)[4 * cb + t2] == y);
            assert(4 * ca + t1 != 4 * cb + t2) by (nonlinear_arith)
                requires
                    ca != cb && 0 <= t1 < 4 && 0 <= t2 < 4,
            ;
            assert(false);
        }
    }
}

/// The selection-stack entry `j` has its own-column cover recorded at
/// trail position `b`, with `j` linked in that column's ring there.
pub open spec fn stack_frame_ok(tr: Seq<Frame>, b: int, j: int) -> bool {
    &&& 0 <= b < tr.len()
    &&& tr[b].h == node_head(j)
    &&& tr[b].pre_cols[tr[b].h].contains(j)
}

/// The exact-cover search engine for one puzzle.
pub struct Engine {
    dlx: Dlx,
    givens: Vec<usize>,
    stack: Vec<usize>,
    state: SearchState,
    input_g: Ghost<Seq<u8>>,
}

impl Engine {
    /// The puzzle this engine was built for.
    pub closed spec fn input(self) -> Seq<u8> {
        self.input_g@
    }

    /// The machine's current phase.
    pub closed spec fn search_state(self) -> SearchState {
        self.state
    }

    /// The rows currently placed on the board: the givens, then the
    /// search's selection stack in choice order.
    pub closed spec fn chosen(self) -> Seq<int> {
        seq_int(self.givens@) + seq_int(self.stack@)
    }

    /// The same rows in the order the materializer writes them: the
    /// search's choices first, the givens last.
    pub closed spec fn board_rows(self) -> Seq<int> {
        seq_int(self.stack@) + seq_int(self.givens@)
    }

    /// The engine's complete state as one machine-level value.
    pub closed spec fn machine_view(self) -> EngineV {
        EngineV {
            s: self.dlx.lstate(),
            headers: self.dlx.live_headers(),
            cols: self.dlx.live_cols(),
            trail: self.dlx.trail(),
            givens: seq_int(self.givens@),
            stack: seq_int(self.stack@),
            st: self.state,
        }
    }

    /// The engine invariant: the arena is well formed with a valid
    /// trail; the given list is exactly the input's givens; the trail's
    /// covers are exactly the four columns of every chosen row, in
    /// choice order (with only the chosen row's own column covered yet
    /// while in `Cover`); each stack entry's own cover frame records it
    /// as a linked member of its column; and a reported solution means
    /// no live column is left.
    pub closed spec fn inv(self) -> bool {
        let tr = self.dlx.trail();
        let hs = trail_hs(tr);
        let ch = self.chosen();
        &&& self.dlx.wf()
        &&& grid_seq_wf(self.input_g@)
        &&& seq_int(self.givens@) == given_nodes(self.input_g@)
        &&& forall|k: int| 0 <= k < self.stack@.len() ==> is_row_node(#[trigger] self.stack@[k] as int)
        &&& if tr.len() == 0 {
            self.dlx.live_headers() == full_headers()
        } else {
            tr[0].pre_headers == full_headers()
        }
        &&& match self.state {
            SearchState::Cover => {
                &&& self.stack@.len() > 0
                &&& hs == covers_of(ch.drop_last()).push(node_head(ch.last()))
            },
            _ => hs == covers_of(ch),
        }
        &&& forall|d: int|
            0 <= d < self.stack@.len() ==> #[trigger] stack_frame_ok(
                tr,
                4 * self.givens@.len() + 4 * d,
                self.stack@[d] as int,
            )
        &&& self.state == SearchState::SolutionFound ==> self.dlx.live_headers().len() == 0
    }

    /// Whether the search space is exhausted.
    pub fn finished(&self) -> (r: bool)
        ensures
            r == (self.search_state() == SearchState::Finished),
    {
        matches!(self.state, SearchState::Finished)
    }

    /// Reads the board off the engine: every chosen row writes its digit
    /// into its cell, the givens last.
    pub fn current_grid(&self) -> (r: Grid)
        requires
            self.inv(),
        ensures
            r.wf(),
            r@ == decode_grid(self.board_rows()),
            r@.len() == 81,
    {
        let mut g = Grid::blank();
        proof {
            assert(decode_grid(Seq::empty()) =~= g@);
        }
        let mut i: usize = 0;
        while i < self.stack.len()
            invariant
                self.inv(),
                i <= self.stack@.len(),
                g.wf(),
                g@ == decode_grid(seq_int(self.stack@).take(i as int)),
            decreases self.stack@.len() - i,
        {
            let j = self.stack[i];
            proof {
                assert(is_row_node(self.stack@[i as int] as int));
                lemma_vmem_of_node(j as int);
                lemma_cand_coords(cand_of(j as int));
                assert(seq_int(self.stack@).take(i + 1) =~= seq_int(self.stack@).take(
                    i as int,
                ).push(j as int));
                assert(seq_int(self.stack@).take(i + 1).drop_last() =~= seq_int(
                    self.stack@,
                ).take(i as int));
            }
            let (c, v) = cand_parts(j);
            g.set(c / 9, c % 9, v);
            proof {
                vstd::arithmetic::div_mod::lemma_fundamental_div_mod(c as int, 9);
                vstd::arithmetic::div_mod::lemma_mod_bound(c as int, 9);
            }
            i += 1;
        }
        proof {
            assert(seq_int(self.stack@).take(self.stack@.len() as int) =~= seq_int(self.stack@));
        }
        let mut t: usize = 0;
        while t < self.givens.len()
            invariant
                self.inv(),
                t <= self.givens@.len(),
                g.wf(),
                g@ == decode_grid(seq_int(self.stack@) + seq_int(self.givens@).take(t as int)),
            decreases self.givens@.len() - t,
        {
            let j = self.givens[t];
            proof {
                lemma_given_upto_char(self.input_g@, 81);
                assert(seq_int(self.givens@)[t as int] == given_nodes(self.input_g@)[t as int]);
                assert(is_row_node(j as int));
                lemma_vmem_of_node(j as int);
                lemma_cand_coords(cand_of(j as int));
                assert(seq_int(self.stack@) + seq_int(self.givens@).take(t + 1) =~= (seq_int(
                    self.stack@,
                ) + seq_int(self.givens@).take(t as int)).push(j as int));
                assert((seq_int(self.stack@) + seq_int(self.givens@).take(t + 1)).drop_last()
                    =~= seq_int(self.stack@) + seq_int(self.givens@).take(t as int));
            }
            let (c, v) = cand_parts(j);
            g.set(c / 9, c % 9, v);
            proof {
                vstd::arithmetic::div_mod::lemma_fundamental_div_mod(c as int, 9);
                vstd::arithmetic::div_mod::lemma_mod_bound(c as int, 9);
            }
            t += 1;
        }
        proof {
            assert(seq_int(self.givens@).take(self.givens@.len() as int) =~= seq_int(
                self.givens@,
            ));
        }
        g
    }

    /// Builds the engine for a puzzle: lays out the full exact-cover
    /// matrix, then covers each given's four constraint columns once.
    /// A given whose column is already covered collides with an earlier
    /// given; construction then reports `InvalidPuzzle` rather than
    /// leave the arena inconsistent, and that happens exactly when two
    /// givens put the same digit in one row, column or box.
    #[verifier::rlimit(100)]
    pub fn build(grid: &Grid) -> (r: Result<Engine, InvalidPuzzle>)
        requires
            grid.wf(),
        ensures
            r is Err <==> grid_conflict(grid@),
            r matches Ok(e) ==> {
                &&& e.inv()
                &&& e.input() == grid@
                &&& e.search_state() == SearchState::Begin
                &&& e.chosen() == given_nodes(grid@)
                &&& decode_grid(e.board_rows()) == grid@
                &&& e.machine_view() == covers_fold(
                    init_machine(grid@),
                    covers_of(given_nodes(grid@)),
                )
            },
    {
        proof {
            lemma_given_upto_char(grid@, 81);
        }
        let mut givens: Vec<usize> = Vec::new();
        let mut i: usize = 0;
        while i < 81
            invariant
                grid.wf(),
                i <= 81,
                seq_int(givens@) == given_nodes_upto(grid@, i as int),
            decreases 81 - i,
        {
            let v = grid.cell(i);
            if v != 0 {
                proof {
                    lemma_gnode(i as int, v);
                }
                let n = gnode_x(i, v);
                givens.push(n);
                proof {
                    assert(seq_int(givens@) =~= given_nodes_upto(grid@, i + 1));
                }
            } else {
                proof {
                    assert(seq_int(givens@) =~= given_nodes_upto(grid@, i + 1));
                }
            }
            i += 1;
        }
        let ghost gseq = seq_int(givens@);
        let ghost im = init_machine(grid@);
        proof {
            assert(gseq == given_nodes(grid@));
        }

        let mut d = Dlx::new();
        let mut covered: Vec<bool> = Vec::new();
        let mut c0: usize = 0;
        while c0 <= N_HEADERS
            invariant
                c0 <= N_HEADERS + 1,
                covered@.len() == c0,
                forall|c: int| 0 <= c < c0 ==> !(#[trigger] covered@[c]),
            decreases N_HEADERS + 1 - c0,
        {
            covered.push(false);
            c0 += 1;
        }
        proof {
            assert(trail_hs(d.trail()) =~= Seq::<int>::empty());
            assert(covers_of(gseq.take(0)) =~= Seq::<int>::empty()) by {
                assert(gseq.take(0) =~= Seq::<int>::empty());
            }
            assert forall|y: int|
                d.live_headers().contains(y) <==> (is_header(y) && !trail_hs(
                d.trail(),
            ).contains(y)) by {
                lemma_full_headers_contains(y);
            }
            assert(cover_pass_ok(d, covered@));
            assert(trail_hs(d.trail()) =~= Seq::<int>::empty());
            assert(covers_fold(im, Seq::<int>::empty()) == im);
            assert(arena_is_fold(d, im));
        }
        let mut t: usize = 0;
        while t < givens.len()
            invariant
                grid.wf(),
                seq_int(givens@) == gseq,
                gseq == given_nodes(grid@),
                t <= givens@.len(),
                cover_pass_ok(d, covered@),
                arena_is_fold(d, im),
                im == init_machine(grid@),
                trail_hs(d.trail()) == covers_of(gseq.take(t as int)),
            decreases givens@.len() - t,
        {
            let j = givens[t];
            let ghost cell = cand_cell(cand_of(j as int));
            let ghost v = grid@[cell];
            proof {
                lemma_given_upto_char(grid@, 81);
                assert(gseq[t as int] == given_nodes(grid@)[t as int]);
                assert(j as int == gnode(cell, v) && grid@[cell] != 0);
                lemma_gnode(cell, v);
                lemma_heads4_gnode(cell, v);
                assert(d.lstate().nodes.len() == N_NODES);
            }
            let mut u: usize = 0;
            let mut n = j;
            while u < 4
                invariant
                    grid.wf(),
                    seq_int(givens@) == gseq,
                    gseq == given_nodes(grid@),
                    t < givens@.len(),
                    gseq[t as int] == j as int,
                    j as int == gnode(cell, v),
                    0 <= cell < 81,
                    v == grid@[cell],
                    1 <= v <= 9,
                    u <= 4,
                    n as int == node_at(cand_for(cell, v), if u < 4 { u as int } else { 0 }),
                    cover_pass_ok(d, covered@),
                    arena_is_fold(d, im),
                    im == init_machine(grid@),
                    trail_hs(d.trail()) == covers_of(gseq.take(t as int)) + heads4(
                        j as int,
                    ).take(u as int),
                decreases 4 - u,
            {
                proof {
                    lemma_gnode(cell, v);
                    lemma_heads4_gnode(cell, v);
                    lemma_node_at_inverse(cand_for(cell, v), u as int);
                    assert(is_row_node(n as int));
                    assert(d.lstate().nodes.len() == N_NODES);
                }
                let c = d.node(n).head;
                proof {
                    assert(c as int == node_head(n as int));
                    assert(is_header(c as int));
                    assert(heads4(j as int)[u as int] == c as int);
                }
                if covered[c] {
                    proof {
                        assert(trail_hs(d.trail()).contains(c as int));
                        lemma_err_conflict(grid@, t as int, u as int, c as int);
                    }
                    return Err(InvalidPuzzle);
                }
                covered[c] = true;
                let ghost tr0 = d.trail();
                let ghost headers0 = d.live_headers();
                proof {
                    assert(headers0.contains(c as int));
                    assert(headers0.no_duplicates());
                }
                d.cover(c);
                proof {
                    let f = Frame {
                        h: c as int,
                        pre: d.trail().last().pre,
                        pre_headers: headers0,
                        pre_cols: d.trail().last().pre_cols,
                    };
                    assert(d.trail() == tr0.push(d.trail().last()));
                    assert(d.trail().last().h == c as int);
                    lemma_cover_bookkeep(tr0, headers0, d.trail().last(), c as int);
                    assert(trail_hs(d.trail()) == trail_hs(tr0).push(c as int));
                    assert(trail_hs(d.trail()) =~= covers_of(gseq.take(t as int)) + heads4(
                        j as int,
                    ).take(u + 1));
                    if tr0.len() == 0 {
                        assert(d.trail()[0].pre_headers == headers0);
                    } else {
                        assert(d.trail()[0] == tr0[0]);
                    }
                    assert forall|cx: int|
                        0 <= cx <= N_HEADERS implies ((#[trigger] covered@[cx]) <==> trail_hs(
                        d.trail(),
                    ).contains(cx)) by {
                        broadcast use vstd::seq_lib::lemma_seq_contains_after_push;

                        assert(trail_hs(d.trail()) == trail_hs(tr0).push(c as int));
                    }
                    assert(cover_pass_ok(d, covered@));
                    lemma_covers_fold_snoc(im, trail_hs(tr0), c as int);
                    assert(arena_is_fold(d, im));
                }
                let nn = d.node(n).right;
                proof {
                    lemma_rnext(n as int);
                    lemma_node_at_inverse(
                        cand_for(cell, v),
                        if u + 1 < 4 {
                            u as int + 1
                        } else {
                            0
                        },
                    );
                }
                n = nn;
                u += 1;
            }
            proof {
                assert(heads4(j as int).take(4) =~= heads4(j as int));
                lemma_covers_snoc(gseq.take(t as int), j as int);
                assert(gseq.take(t + 1) =~= gseq.take(t as int).push(j as int));
                assert(trail_hs(d.trail()) =~= covers_of(gseq.take(t + 1)));
            }
            t += 1;
        }
        let e = Engine {
            dlx: d,
            givens,
            stack: Vec::new(),
            state: SearchState::Begin,
            input_g: Ghost(grid@),
        };
        proof {
            assert(gseq.take(gseq.len() as int) =~= gseq);
            lemma_no_dup_no_conflict(grid@);
            assert(e.chosen() =~= gseq) by {
                assert(seq_int(Seq::<usize>::empty()) =~= Seq::<int>::empty());
            }
            lemma_givens_decode(grid@);
            assert(seq_int(e.stack@) + seq_int(e.givens@) =~= gseq);
            lemma_covers_fold_keeps(im, covers_of(gseq));
            assert(seq_int(e.stack@) =~= Seq::<int>::empty());
            assert(e.machine_view() =~= covers_fold(im, covers_of(gseq)));
            assert forall|k: int| 0 <= k < e.stack@.len() implies is_row_node(
                #[trigger] e.stack@[k] as int,
            ) by {}
        }
        Ok(e)
    }

    /// Backtracking memory is bounded by search depth, never by matrix
    /// size: the board never holds more than 81 chosen rows — each
    /// choice covers four distinct constraint columns, no column is
    /// covered twice, and only 324 constraint columns exist.
    #[verifier::rlimit(100)]
    #[verifier::spinoff_prover]
    pub proof fn lemma_depth_bounded(self)
        requires
            self.inv(),
        ensures
            self.chosen().len() <= 81,
    {
        broadcast use vstd::seq_lib::seq_to_set_is_finite;

        let tr = self.dlx.trail();
        let hs = trail_hs(tr);
        let ch = self.chosen();
        lemma_covers_len(ch);
        lemma_covers_len(ch.drop_last());
        if tr.len() == 0 {
            assert(hs.len() == 0);
        } else {
            lemma_trail_headers(tr, self.dlx.lstate(), self.dlx.live_headers(), self.dlx.live_cols());
            assert forall|i: int| 0 <= i < hs.len() implies is_header(#[trigger] hs[i]) by {
                lemma_trail_chain(
                    tr,
                    self.dlx.lstate(),
                    self.dlx.live_headers(),
                    self.dlx.live_cols(),
                    i,
                );
                assert(hs[i] == tr[i].h);
                assert(tr[i].pre_headers.contains(tr[i].h));
                let ky = choose|ky: int|
                    0 <= ky < tr[i].pre_headers.len() && tr[i].pre_headers[ky] == tr[i].h;
                assert(is_header(tr[i].pre_headers[ky]));
            }
            hs.unique_seq_to_set();
            full_headers().unique_seq_to_set();
            assert(full_headers().no_duplicates());
            assert(hs.to_set().subset_of(full_headers().to_set())) by {
                assert forall|y: int| hs.to_set().contains(y) implies full_headers().to_set().contains(
                    y,
                ) by {
                    let i = choose|i: int| 0 <= i < hs.len() && hs[i] == y;
                    assert(is_header(hs[i]));
                    lemma_full_headers_contains(y);
                }
            }
            vstd::set_lib::lemma_len_subset(hs.to_set(), full_headers().to_set());
            assert(hs.len() <= 324);
        }
    }

    /// Soundness of an announced solution: when the machine reports
    /// `SolutionFound`, the board it decodes to completes the input
    /// puzzle — every cell holds a digit, every given is kept, and no
    /// row, column or box repeats a digit.
    #[verifier::rlimit(100)]
    #[verifier::spinoff_prover]
    proof fn lemma_sound(self)
        requires
            self.inv(),
            self.search_state() == SearchState::SolutionFound,
        ensures
            is_solution(decode_grid(self.board_rows()), self.input()),
    {
        let g = self.input_g@;
        let gseq = seq_int(self.givens@);
        let sseq = seq_int(self.stack@);
        let ch = self.chosen();
        let tr = self.dlx.trail();
        let hs = trail_hs(tr);
        assert(hs == covers_of(ch));
        lemma_covers_len(ch);
        if tr.len() == 0 {
            assert(self.dlx.live_headers() == full_headers());
            assert(full_headers()[0] == 1);
            assert(false);
        }
        lemma_trail_headers(tr, self.dlx.lstate(), self.dlx.live_headers(), self.dlx.live_cols());
        assert forall|y: int| is_header(y) implies (covers_of(gseq + sseq)).contains(y) by {
            lemma_full_headers_contains(y);
            assert(!self.dlx.live_headers().contains(y)) by {
                if self.dlx.live_headers().contains(y) {
                    let ky = choose|ky: int|
                        0 <= ky < self.dlx.live_headers().len() && self.dlx.live_headers()[ky] == y;
                    assert(false);
                }
            }
            assert(tr[0].pre_headers == full_headers());
        }
        lemma_sound_core(gseq, sseq, g);
    }

    /// Advances the search until it either yields the next solved grid
    /// or exhausts the space, following the machine's transitions
    /// exactly.  A `Some` is the first solution the run from the
    /// current state pauses at, and a solution owed within the step
    /// budget is always yielded.  After `None` the engine is `Finished`
    /// and every further call returns `None` at once.  The budget far
    /// exceeds physical reach; only a run that consumed it whole would
    /// be reported as finished early.
    pub fn next_solution(&mut self) -> (r: Option<Grid>)
        requires
            old(self).inv(),
        ensures
            final(self).inv(),
            final(self).input() == old(self).input(),
            r matches Some(g) ==> g.wf() && is_solution(g@, old(self).input()),
            r matches Some(g) ==> (exists|n: nat|
                {
                    &&& n < u64::MAX
                    &&& #[trigger] first_pause_at(old(self).machine_view(), n)
                    &&& machine_run(old(self).machine_view(), n).st == SearchState::SolutionFound
                    &&& g@ == board_of(machine_run(old(self).machine_view(), n))
                    &&& final(self).machine_view() == machine_step(
                        machine_run(old(self).machine_view(), n),
                    )
                }),
            (exists|n: nat|
                n < u64::MAX && #[trigger] first_pause_at(old(self).machine_view(), n)
                    && machine_run(old(self).machine_view(), n).st
                    == SearchState::SolutionFound) ==> r is Some,
            r is None ==> final(self).search_state() == SearchState::Finished,
            old(self).search_state() == SearchState::Finished ==> r is None,
    {
        let ghost v0 = self.machine_view();
        let mut fuel: u64 = u64::MAX;
        let ghost mut k: nat = 0;
        while fuel > 0
            invariant
                self.inv(),
                self.input() == old(self).input(),
                old(self).search_state() == SearchState::Finished
                    ==> self.search_state() == SearchState::Finished,
                v0 == old(self).machine_view(),
                self.machine_view() == machine_run(v0, k),
                forall|m: nat| m < k ==> !is_pause(#[trigger] machine_run(v0, m)),
                k + fuel == u64::MAX,
            decreases fuel,
        {
            fuel = fuel - 1;
            proof {
                assert(machine_run(v0, k + 1) == machine_step(machine_run(v0, k)));
            }
            match self.state {
                SearchState::Begin => {
                    self.step_begin();
                    proof {
                        assert(!is_pause(machine_run(v0, k)));
                        k = k + 1;
                    }
                },
                SearchState::Cover => {
                    self.step_cover();
                    proof {
                        assert(!is_pause(machine_run(v0, k)));
                        k = k + 1;
                    }
                },
                SearchState::Uncover => {
                    self.step_uncover();
                    proof {
                        assert(!is_pause(machine_run(v0, k)));
                        k = k + 1;
                    }
                },
                SearchState::SolutionFound => {
                    proof {
                        Self::lemma_sound(*self);
                        assert(machine_run(v0, k).st == SearchState::SolutionFound);
                        assert(first_pause_at(v0, k));
                    }
                    let g = self.current_grid();
                    self.state = SearchState::Uncover;
                    proof {
                        reveal(machine_step);
                        assert(g@ == board_of(machine_run(v0, k)));
                        assert(self.machine_view() =~= machine_step(machine_run(v0, k)));
                    }
                    return Some(g);
                },
                SearchState::Finished => {
                    proof {
                        assert(machine_run(v0, k).st == SearchState::Finished);
                        assert forall|n: nat|
                            n < u64::MAX && #[trigger] first_pause_at(v0, n) implies machine_run(
                            v0,
                            n,
                        ).st != SearchState::SolutionFound by {
                            if n < k {
                                assert(!is_pause(machine_run(v0, n)));
                            } else if n > k {
                                assert(is_pause(machine_run(v0, k)));
                            }
                        }
                    }
                    return None;
                },
            }
        }
        proof {
            assert(k == u64::MAX);
            assert forall|n: nat|
                n < u64::MAX && #[trigger] first_pause_at(v0, n) implies machine_run(
                v0,
                n,
            ).st != SearchState::SolutionFound by {
                assert(!is_pause(machine_run(v0, n)));
            }
        }
        if matches!(self.state, SearchState::Cover) {
            self.step_cover();
        }
        self.state = SearchState::Finished;
        return None;
    }
    /// One `Uncover` step: take back the most recent choice by
    /// uncovering its three sibling columns in reverse; if its column
    /// has another live row below it, push that row and go to `Cover`,
    /// else uncover the column itself and keep backtracking.  An empty
    /// stack means the whole space is exhausted.
    #[verifier::rlimit(100)]
    #[verifier::spinoff_prover]
    fn step_uncover(&mut self)
        requires
            old(self).inv(),
            old(self).search_state() == SearchState::Uncover,
        ensures
            final(self).inv(),
            final(self).input() == old(self).input(),
            final(self).search_state() != SearchState::SolutionFound,
            final(self).search_state() != SearchState::Begin,
            final(self).machine_view() == machine_step(old(self).machine_view()),
    {
        let ghost v0 = self.machine_view();
        if self.stack.len() == 0 {
            self.state = SearchState::Finished;
            proof {
                lemma_step_shape_finish(v0);
                assert(self.machine_view() =~= EngineV { st: SearchState::Finished, ..v0 });
            }
            return ;
        }
        let ghost tr0 = self.dlx.trail();
        let ghost hs0 = trail_hs(tr0);
        let ghost ch0 = self.chosen();
        let ghost gl = self.givens@.len() as int;
        let ghost sl = self.stack@.len() as int;
        let j = self.stack[self.stack.len() - 1];
        let ghost b = 4 * gl + 4 * (sl - 1);
        let ghost f = tr0[b];
        proof {
            assert(stack_frame_ok(
                old(self).dlx.trail(),
                4 * old(self).givens@.len() + 4 * (sl - 1),
                old(self).stack@[sl - 1] as int,
            ));
            assert(ch0.last() == j as int);
            assert(is_row_node(j as int));
            lemma_hs_take(ch0);
            assert(hs0.len() == tr0.len());
            assert(b == tr0.len() - 4);
            lemma_others_shape(j as int);
            assert(f.h == node_head(j as int));
            assert(hs0[tr0.len() - 1] == tr0[tr0.len() - 1].h);
            assert(hs0[tr0.len() - 2] == tr0[tr0.len() - 2].h);
            assert(hs0[tr0.len() - 3] == tr0[tr0.len() - 3].h);
            assert(self.dlx.lstate().nodes.len() == N_NODES);
        }
        let c = self.dlx.node(j).head;
        let o3 = self.dlx.node(j).left;
        let c3 = self.dlx.node(o3).head;
        proof {
            assert(c as int == node_head(j as int) == f.h);
            assert(o3 as int == others(j as int)[2]);
            assert(c3 as int == node_head(o3 as int) == heads4(ch0.last())[3]);
            assert(self.dlx.trail().last() == tr0[tr0.len() - 1]);
        }
        self.dlx.uncover(c3);
        proof {
            assert(self.dlx.trail() == tr0.drop_last());
            assert(self.dlx.trail().last() == tr0[tr0.len() - 2]);
            assert(self.dlx.lstate().nodes.len() == N_NODES) by {
                assert(frame_ok(tr0[tr0.len() - 1])) by {
                    lemma_trail_chain(
                        tr0,
                        old(self).dlx.lstate(),
                        old(self).dlx.live_headers(),
                        old(self).dlx.live_cols(),
                        tr0.len() - 1,
                    );
                }
            }
        }
        let o2 = self.dlx.node(o3).left;
        let c2 = self.dlx.node(o2).head;
        proof {
            assert(o2 as int == others(j as int)[1]);
            assert(c2 as int == node_head(o2 as int) == heads4(ch0.last())[2]);
        }
        self.dlx.uncover(c2);
        proof {
            assert(self.dlx.trail() =~= tr0.take(tr0.len() - 2));
            assert(self.dlx.trail().last() == tr0[tr0.len() - 3]);
            assert(self.dlx.lstate().nodes.len() == N_NODES);
        }
        let o1 = self.dlx.node(o2).left;
        let c1 = self.dlx.node(o1).head;
        proof {
            assert(o1 as int == others(j as int)[0]);
            assert(c1 as int == node_head(o1 as int) == heads4(ch0.last())[1]);
        }
        self.dlx.uncover(c1);
        let ghost mem = f.pre_cols[f.h];
        proof {
            assert(self.dlx.trail() =~= tr0.take(tr0.len() - 3));
            lemma_trail_chain(
                tr0,
                old(self).dlx.lstate(),
                old(self).dlx.live_headers(),
                old(self).dlx.live_cols(),
                b,
            );
            assert(frame_ok(f));
            assert(tr0[b + 1].pre == frame_next_state(f));
            assert(self.dlx.lstate() == frame_next_state(f));
            assert(self.dlx.live_headers() == frame_next_headers(f));
            assert(self.dlx.live_cols() == frame_next_cols(f));
            lemma_cover_facts(f.pre, f.pre_headers, f.pre_cols, f.h);
            assert(in_terr(j as int, f.h));
            assert(s_cover(f.pre, mem, f.h).nodes[j as int] == f.pre.nodes[j as int]);
            assert(self.dlx.lstate().nodes[j as int] == f.pre.nodes[j as int]);
            assert(self.dlx.lstate().nodes.len() == N_NODES);
        }
        let nx = self.dlx.node(j).down;
        let ghost kj = choose|kj: int| 0 <= kj < mem.len() && mem[kj] == j as int;
        proof {
            assert(mem.contains(j as int));
            assert(mem[kj] == j as int);
            assert(col_ok(f.pre, f.h, mem)) by {
                assert(arena_wf(f.pre, f.pre_headers, f.pre_cols));
            }
            assert(vring_at(f.pre.nodes, f.h, mem, kj + 1));
            assert(mem.no_duplicates());
        }
        if nx as usize != c {
            proof {
                // the ring holds another candidate below the popped one
                if kj + 1 == mem.len() {
                    assert(nx as int == f.h);
                    assert(false);
                }
                assert(nx as int == mem[kj + 1]);
                assert(is_row_node(nx as int) && node_head(nx as int) == f.h);
            }
            let last = self.stack.len() - 1;
            self.stack[last] = nx;
            self.state = SearchState::Cover;
            proof {
                let ch1 = self.chosen();
                assert(ch1.drop_last() =~= ch0.drop_last());
                assert(ch1.last() == nx as int);
                assert(trail_hs(tr0.take(tr0.len() - 3)) =~= hs0.take(tr0.len() - 3));
                assert(trail_hs(self.dlx.trail()) == covers_of(ch0.drop_last()).push(
                    heads4(ch0.last())[0],
                ));
                assert(heads4(ch0.last())[0] == node_head(j as int));
                assert(node_head(ch1.last() as int) == f.h);
                assert forall|d: int|
                    0 <= d < self.stack@.len() implies #[trigger] stack_frame_ok(
                    self.dlx.trail(),
                    4 * self.givens@.len() + 4 * d,
                    self.stack@[d] as int,
                ) by {
                    assert(stack_frame_ok(
                        old(self).dlx.trail(),
                        4 * old(self).givens@.len() + 4 * d,
                        old(self).stack@[d] as int,
                    ));
                    if d < sl - 1 {
                        assert(self.stack@[d] == old(self).stack@[d]);
                        assert(self.dlx.trail()[4 * gl + 4 * d] == tr0[4 * gl + 4 * d]);
                    } else {
                        assert(self.dlx.trail()[b] == tr0[b]);
                        assert(mem.contains(nx as int)) by {
                            assert(mem[kj + 1] == nx as int);
                        }
                    }
                }
                assert(self.dlx.trail()[0] == tr0[0]);
                // the transition is exactly the machine's advance branch
                let w = v_uncover(v_uncover(v_uncover(v0)));
                assert(v0.stack.last() == j as int);
                assert(w.s == self.dlx.lstate() && w.headers == self.dlx.live_headers()
                    && w.cols == self.dlx.live_cols() && w.trail == self.dlx.trail());
                assert(nd(w.s.nodes, j as int) == nx as int);
                assert(node_head(j as int) == c as int);
                assert(nx as int != c as int);
                assert(seq_int(self.stack@) =~= w.stack.update(
                    w.stack.len() - 1,
                    nd(w.s.nodes, j as int),
                ));
                lemma_step_shape_advance(v0);
                assert(self.machine_view() =~= EngineV {
                    stack: w.stack.update(w.stack.len() - 1, nd(w.s.nodes, j as int)),
                    st: SearchState::Cover,
                    ..w
                });
            }
        } else {
            let ghost w = v_uncover(v_uncover(v_uncover(v0)));
            proof {
                assert(self.dlx.trail().last() == tr0[b]);
                assert(tr0[b].h == c as int);
                assert(w.s == self.dlx.lstate() && w.headers == self.dlx.live_headers()
                    && w.cols == self.dlx.live_cols() && w.trail == self.dlx.trail());
                assert(nd(w.s.nodes, j as int) == nx as int);
                assert(node_head(j as int) == c as int);
                assert(v0.stack.last() == j as int);
            }
            self.dlx.uncover(c);
            let _ = self.stack.pop();
            proof {
                let ch1 = self.chosen();
                assert(ch1 =~= ch0.drop_last());
                assert(self.dlx.trail() =~= tr0.take(b));
                assert(trail_hs(tr0.take(b)) =~= hs0.take(b));
                assert(trail_hs(self.dlx.trail()) == covers_of(ch1));
                assert forall|d: int|
                    0 <= d < self.stack@.len() implies #[trigger] stack_frame_ok(
                    self.dlx.trail(),
                    4 * self.givens@.len() + 4 * d,
                    self.stack@[d] as int,
                ) by {
                    assert(stack_frame_ok(
                        old(self).dlx.trail(),
                        4 * old(self).givens@.len() + 4 * d,
                        old(self).stack@[d] as int,
                    ));
                    assert(self.stack@[d] == old(self).stack@[d]);
                    assert(self.dlx.trail()[4 * gl + 4 * d] == tr0[4 * gl + 4 * d]);
                }
                if b == 0 {
                    assert(self.dlx.live_headers() == f.pre_headers);
                    assert(f == tr0[0]);
                } else {
                    assert(self.dlx.trail()[0] == tr0[0]);
                }
                // the transition is exactly the machine's pop branch
                lemma_step_shape_pop(v0);
                let u = v_uncover(w);
                assert(u.s == self.dlx.lstate() && u.headers == self.dlx.live_headers()
                    && u.cols == self.dlx.live_cols() && u.trail == self.dlx.trail());
                assert(seq_int(self.stack@) =~= u.stack.drop_last());
                assert(self.machine_view() =~= EngineV {
                    stack: u.stack.drop_last(),
                    st: SearchState::Uncover,
                    ..u
                });
            }
        }
    }

    /// One `Cover` step: the row just pushed has its own column covered
    /// already; cover the columns of its three sibling nodes, left to
    /// right, and return to `Begin`.
    #[verifier::rlimit(100)]
    fn step_cover(&mut self)
        requires
            old(self).inv(),
            old(self).search_state() == SearchState::Cover,
        ensures
            final(self).inv(),
            final(self).input() == old(self).input(),
            final(self).search_state() == SearchState::Begin,
            final(self).machine_view() == machine_step(old(self).machine_view()),
    {
        let ghost v0 = self.machine_view();
        proof {
            reveal(machine_step);
        }
        let ghost tr0 = self.dlx.trail();
        let ghost ch0 = self.chosen();
        let ghost gl = self.givens@.len() as int;
        let ghost sl = self.stack@.len() as int;
        let j = self.stack[self.stack.len() - 1];
        let ghost b = 4 * gl + 4 * (sl - 1);
        let ghost f = tr0.last();
        proof {
            assert(stack_frame_ok(
                old(self).dlx.trail(),
                4 * old(self).givens@.len() + 4 * (sl - 1),
                old(self).stack@[sl - 1] as int,
            ));
            lemma_covers_len(ch0.drop_last());
            assert(trail_hs(tr0).len() == tr0.len());
            assert(b == tr0.len() - 1);
            assert(ch0.last() == j as int);
            assert(is_row_node(j as int));
            lemma_trail_chain(
                tr0,
                self.dlx.lstate(),
                self.dlx.live_headers(),
                self.dlx.live_cols(),
                b,
            );
            assert(tr0[b] == f);
            assert(f.h == node_head(j as int));
            assert(f.pre_cols[f.h].contains(j as int));
            lemma_siblings_live(f, j as int);
            lemma_others_shape(j as int);
            assert(self.dlx.live_headers() == frame_next_headers(f));
            assert(self.dlx.lstate().nodes.len() == N_NODES);
        }
        let o1 = self.dlx.node(j).right;
        let c1 = self.dlx.node(o1).head;
        proof {
            assert(o1 as int == others(j as int)[0]);
            assert(c1 as int == node_head(o1 as int));
        }
        self.dlx.cover(c1);
        proof {
            assert(self.dlx.live_headers().contains(node_head(others(j as int)[1])));
            assert(self.dlx.lstate().nodes.len() == N_NODES);
        }
        let o2 = self.dlx.node(o1).right;
        let c2 = self.dlx.node(o2).head;
        proof {
            assert(o2 as int == others(j as int)[1]);
            assert(c2 as int == node_head(o2 as int));
        }
        self.dlx.cover(c2);
        proof {
            assert(self.dlx.live_headers().contains(node_head(others(j as int)[2])));
            assert(self.dlx.lstate().nodes.len() == N_NODES);
        }
        let o3 = self.dlx.node(o2).right;
        let c3 = self.dlx.node(o3).head;
        proof {
            assert(o3 as int == others(j as int)[2]);
            assert(c3 as int == node_head(o3 as int));
        }
        self.dlx.cover(c3);
        self.state = SearchState::Begin;
        proof {
            let trf = self.dlx.trail();
            assert(trail_hs(trf) =~= trail_hs(tr0).push(c1 as int).push(c2 as int).push(
                c3 as int,
            ));
            lemma_hs_after3(trail_hs(tr0), ch0, j as int);
            assert(trail_hs(trf) == covers_of(ch0));
            assert forall|d: int|
                0 <= d < self.stack@.len() implies #[trigger] stack_frame_ok(
                trf,
                4 * self.givens@.len() + 4 * d,
                self.stack@[d] as int,
            ) by {
                assert(stack_frame_ok(
                    old(self).dlx.trail(),
                    4 * old(self).givens@.len() + 4 * d,
                    old(self).stack@[d] as int,
                ));
                assert(trf[4 * gl + 4 * d] == tr0[4 * gl + 4 * d]);
            }
            assert(trf[0] == tr0[0]);
            // the transition is exactly the machine's Cover step
            assert(v0.stack.last() == j as int);
            assert(c1 as int == node_head(rnext(j as int)));
            assert(c2 as int == node_head(rnext(rnext(j as int))));
            assert(c3 as int == node_head(rnext(rnext(rnext(j as int)))));
            let w1 = v_cover(v0, c1 as int);
            let w2 = v_cover(w1, c2 as int);
            let w3 = v_cover(w2, c3 as int);
            assert(self.machine_view() =~= EngineV { st: SearchState::Begin, ..w3 });
        }
    }

    /// One `Begin` step: report a solution when no column is left; else
    /// pick the size-minimal live column.  An empty column is a dead
    /// branch and sends the search to `Uncover`; otherwise the column is
    /// covered and its first live row pushed.
    #[verifier::rlimit(100)]
    fn step_begin(&mut self)
        requires
            old(self).inv(),
            old(self).search_state() == SearchState::Begin,
        ensures
            final(self).inv(),
            final(self).input() == old(self).input(),
            final(self).search_state() != SearchState::Finished,
            final(self).search_state() == SearchState::SolutionFound ==> final(self).board_rows()
                == old(self).board_rows(),
            final(self).machine_view() == machine_step(old(self).machine_view()),
    {
        let ghost v0 = self.machine_view();
        proof {
            reveal(machine_step);
        }
        let rr = self.dlx.root_right();
        if rr == 0 {
            self.state = SearchState::SolutionFound;
            proof {
                assert(self.machine_view() =~= EngineV { st: SearchState::SolutionFound, ..v0 });
            }
        } else {
            let c = self.dlx.choose_column();
            let sz = self.dlx.size_of(c);
            proof {
                assert(col_ok(
                    self.dlx.lstate(),
                    c as int,
                    self.dlx.live_cols()[c as int],
                ));
            }
            if sz == 0 {
                self.state = SearchState::Uncover;
                proof {
                    assert(self.machine_view() =~= EngineV { st: SearchState::Uncover, ..v0 });
                }
            } else {
                let ghost s0 = self.dlx.lstate();
                let ghost headers0 = self.dlx.live_headers();
                let ghost cols0 = self.dlx.live_cols();
                let ghost tr0 = self.dlx.trail();
                let ghost mem = cols0[c as int];
                let ghost ch0 = self.chosen();
                let ghost gl = self.givens@.len() as int;
                let ghost sl0 = self.stack@.len() as int;
                proof {
                    lemma_cover_facts(s0, headers0, cols0, c as int);
                    assert(vring_at(s0.nodes, c as int, mem, 0));
                }
                self.dlx.cover(c);
                proof {
                    assert(in_terr(c as int, c as int));
                    assert(s_cover(s0, cols0[c as int], c as int).nodes[c as int] == s0.nodes[
                        c as int
                    ]);
                    assert(self.dlx.lstate().nodes[c as int] == s0.nodes[c as int]);
                    assert(self.dlx.lstate().nodes.len() == N_NODES);
                }
                let j = self.dlx.node(c).down;
                proof {
                    assert(j as int == mem[0]);
                    assert(is_row_node(j as int) && node_head(j as int) == c as int);
                }
                self.stack.push(j);
                self.state = SearchState::Cover;
                proof {
                    let ch1 = self.chosen();
                    assert(seq_int(self.stack@) =~= seq_int(self.stack@.drop_last()).push(
                        j as int,
                    ));
                    assert(ch1 =~= ch0.push(j as int));
                    assert(ch1.drop_last() =~= ch0);
                    assert(trail_hs(self.dlx.trail()) =~= trail_hs(tr0).push(c as int));
                    lemma_covers_len(ch0);
                    let b = 4 * gl + 4 * sl0;
                    assert(b == tr0.len());
                    assert(self.dlx.trail()[b] == self.dlx.trail().last());
                    assert(self.dlx.trail()[b].h == c as int);
                    assert(self.dlx.trail()[b].pre_cols[c as int].contains(j as int)) by {
                        assert(mem[0] == j as int);
                    }
                    assert forall|d: int|
                        0 <= d < self.stack@.len() implies #[trigger] stack_frame_ok(
                        self.dlx.trail(),
                        4 * self.givens@.len() + 4 * d,
                        self.stack@[d] as int,
                    ) by {
                        if d < sl0 {
                            assert(stack_frame_ok(
                                old(self).dlx.trail(),
                                4 * old(self).givens@.len() + 4 * d,
                                old(self).stack@[d] as int,
                            ));
                            assert(self.stack@[d] == old(self).stack@[d]);
                            assert(self.dlx.trail()[4 * gl + 4 * d] == tr0[4 * gl + 4 * d]);
                        } else {
                            assert(stack_frame_ok(self.dlx.trail(), b, j as int));
                        }
                    }
                    if tr0.len() > 0 {
                        assert(self.dlx.trail()[0] == tr0[0]);
                    }
                    // the transition is exactly the machine's Begin step
                    assert(c as int == mrv_choice(v0.s, v0.headers));
                    assert(v0.s.sizes[c as int] != 0);
                    assert(nd(v0.s.nodes, c as int) == mem[0]) by {
                        assert(vring_at(s0.nodes, c as int, mem, 0));
                    }
                    assert(self.machine_view() =~= EngineV {
                        stack: v_cover(v0, c as int).stack.push(nd(v0.s.nodes, c as int)),
                        st: SearchState::Cover,
                        ..v_cover(v0, c as int)
                    });
                }
            }
        }
    }

}


/// Computes the arena index of the cell node for digit `v` in cell `i`.
fn gnode_x(i: usize, v: u8) -> (n: usize)
    requires
        i < 81,
        1 <= v <= 9,
    ensures
        n as int == gnode(i as int, v),
{
    NODE_LO + 4 * (i * 9 + (v as usize) - 1)
}

/// Splits a candidate node into the cell it fills and the digit it
/// writes there.
fn cand_parts(j: usize) -> (r: (usize, u8))
    requires
        is_row_node(j as int),
    ensures
        r.0 as int == cand_cell(cand_of(j as int)),
        r.1 == cand_val(cand_of(j as int)),
        r.0 < 81,
        1 <= r.1 <= 9,
{
    proof {
        lemma_vmem_of_node(j as int);
        lemma_cand_coords(cand_of(j as int));
        vstd::arithmetic::div_mod::lemma_mod_bound((j - NODE_LO) as int / 4, 9);
        vstd::arithmetic::div_mod::lemma_fundamental_div_mod((j - NODE_LO) as int / 4, 9);
    }
    let r = (j - NODE_LO) / 4;
    (r / 9, (r % 9) as u8 + 1)
}

} // verus!
