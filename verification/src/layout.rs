//! Static geometry of the exact-cover matrix for a 9-by-9 puzzle.
//!
//! Candidate rows are numbered `(x * 9 + y) * 9 + (z - 1)` for a placement
//! of digit `z` in cell `(x, y)`.  Each candidate satisfies four
//! constraints at once — its cell, its row-digit pair, its column-digit
//! pair and its box-digit pair — so it owns four nodes in the arena.
//! Constraint columns get header indices 1 through 324 (the root sentinel
//! is index 0), and the four nodes of candidate `r` sit at arena indices
//! `325 + 4 * r` through `325 + 4 * r + 3`.

use vstd::prelude::*;

verus! {

/// Arena index of the root sentinel.
pub const ROOT: usize = 0;

/// Number of constraint columns.
pub const N_HEADERS: usize = 324;

/// Arena index of the first candidate node; headers occupy 1 through 324.
pub const NODE_LO: usize = 325;

/// Total number of arena nodes: root, 324 headers, 729 candidates of 4 nodes.
pub const N_NODES: usize = 3241;

/// Number of candidate rows.
pub const N_CANDS: usize = 729;

/// Nodes a candidate owns: one per constraint family.
pub const ARITY: usize = 4;

pub open spec fn is_header(h: int) -> bool {
    1 <= h < 325
}

pub open spec fn is_row_node(n: int) -> bool {
    325 <= n < 3241
}

/// The cell row of a candidate.
pub open spec fn cand_x(r: int) -> int {
    r / 81
}

/// The cell column of a candidate.
pub open spec fn cand_y(r: int) -> int {
    (r / 9) % 9
}

/// The digit of a candidate, as an offset 0 through 8.
pub open spec fn cand_z(r: int) -> int {
    r % 9
}

/// The box (0 through 8) holding a candidate's cell.
pub open spec fn cand_box(r: int) -> int {
    (cand_x(r) / 3) * 3 + cand_y(r) / 3
}

/// The cell (0 through 80) a candidate fills.
pub open spec fn cand_cell(r: int) -> int {
    r / 9
}

/// The digit value (1 through 9) a candidate writes.
pub open spec fn cand_val(r: int) -> u8 {
    (r % 9 + 1) as u8
}

/// The candidate number for digit `v` in cell `i`.
pub open spec fn cand_for(i: int, v: u8) -> int {
    i * 9 + v - 1
}

/// Arena index of node `k` of candidate `r`.
pub open spec fn node_at(r: int, k: int) -> int {
    325 + 4 * r + k
}

/// The candidate owning an arena node.
pub open spec fn cand_of(n: int) -> int {
    (n - 325) / 4
}

/// Which of its candidate's four nodes an arena node is:
/// 0 cell, 1 row-digit, 2 column-digit, 3 box-digit.
pub open spec fn kind_of(n: int) -> int {
    (n - 325) % 4
}

/// The header index of the constraint column an arena node belongs to.
pub open spec fn node_head(n: int) -> int {
    let r = cand_of(n);
    let k = kind_of(n);
    if k == 0 {
        1 + cand_x(r) * 9 + cand_y(r)
    } else if k == 1 {
        1 + 81 + cand_x(r) * 9 + cand_z(r)
    } else if k == 2 {
        1 + 162 + cand_y(r) * 9 + cand_z(r)
    } else {
        1 + 243 + cand_box(r) * 9 + cand_z(r)
    }
}

/// The position (0 through 8) of an arena node inside its column ring.
pub open spec fn node_pos(n: int) -> int {
    let r = cand_of(n);
    let k = kind_of(n);
    if k == 0 {
        cand_z(r)
    } else if k == 1 {
        cand_y(r)
    } else if k == 2 {
        cand_x(r)
    } else {
        (cand_x(r) % 3) * 3 + cand_y(r) % 3
    }
}

/// The member node at position `p` of the column with header `h`.
pub open spec fn vmem(h: int, p: int) -> int {
    let g = (h - 1) / 81;
    let q = (h - 1) % 81;
    let a = q / 9;
    let b = q % 9;
    if g == 0 {
        node_at((a * 9 + b) * 9 + p, 0)
    } else if g == 1 {
        node_at((a * 9 + p) * 9 + b, 1)
    } else if g == 2 {
        node_at((p * 9 + a) * 9 + b, 2)
    } else {
        node_at((((a / 3) * 3 + p / 3) * 9 + (a % 3) * 3 + p % 3) * 9 + b, 3)
    }
}

/// The node to the right of a candidate node, inside its candidate's
/// horizontal ring.
pub open spec fn rnext(n: int) -> int {
    if kind_of(n) < 3 {
        n + 1
    } else {
        n - 3
    }
}

/// The node to the left of a candidate node.
pub open spec fn rprev(n: int) -> int {
    if kind_of(n) > 0 {
        n - 1
    } else {
        n + 3
    }
}

/// The three nodes of a candidate other than `n`, in rightward order.
pub open spec fn others(n: int) -> Seq<int> {
    seq![rnext(n), rnext(rnext(n)), rnext(rnext(rnext(n)))]
}

/// The four column headers a candidate node's candidate touches, in the
/// order the search covers them: the node's own column first, then the
/// columns of the other three nodes rightward.
pub open spec fn heads4(n: int) -> Seq<int> {
    seq![node_head(n), node_head(others(n)[0]), node_head(others(n)[1]), node_head(others(n)[2])]
}

/// Arena index of the cell node of the given digit `v` in cell `i`.
pub open spec fn gnode(i: int, v: u8) -> int {
    node_at(cand_for(i, v), 0)
}

/// Quotient and remainder of `a * d + b` by `d`.
pub proof fn lemma_divmod(a: int, b: int, d: int)
    requires
        d > 0,
        0 <= b < d,
    ensures
        (a * d + b) / d == a,
        (a * d + b) % d == b,
{
    assert((a * d + b) / d == a && (a * d + b) % d == b) by (nonlinear_arith)
        requires
            d > 0,
            0 <= b < d,
    ;
}

/// Dividing twice is dividing by the product, for the divisors in use here.
pub proof fn lemma_div_nine_nine(x: int)
    requires
        x >= 0,
    ensures
        (x / 9) / 9 == x / 81,
{
    assert((x / 9) / 9 == x / 81) by (nonlinear_arith)
        requires
            x >= 0,
    ;
}

/// A candidate node's candidate and kind recover its arena index.
pub proof fn lemma_node_at_inverse(r: int, k: int)
    requires
        0 <= r < 729,
        0 <= k < 4,
    ensures
        is_row_node(node_at(r, k)),
        cand_of(node_at(r, k)) == r,
        kind_of(node_at(r, k)) == k,
{
    lemma_divmod(r, k, 4);
}

/// The coordinates of a candidate stay in range.
pub proof fn lemma_cand_coords(r: int)
    requires
        0 <= r < 729,
    ensures
        0 <= cand_x(r) < 9,
        0 <= cand_y(r) < 9,
        0 <= cand_z(r) < 9,
        0 <= cand_box(r) < 9,
        r == (cand_x(r) * 9 + cand_y(r)) * 9 + cand_z(r),
        cand_cell(r) == cand_x(r) * 9 + cand_y(r),
{
    let x = cand_x(r);
    let y = cand_y(r);
    let z = cand_z(r);
    lemma_div_nine_nine(r);
    assert(r == (r / 9) * 9 + z) by {
        vstd::arithmetic::div_mod::lemma_fundamental_div_mod(r, 9);
    }
    assert(r / 9 == (r / 9 / 9) * 9 + (r / 9) % 9) by {
        vstd::arithmetic::div_mod::lemma_fundamental_div_mod(r / 9, 9);
    }
    assert(0 <= z < 9) by {
        vstd::arithmetic::div_mod::lemma_mod_bound(r, 9);
    }
    assert(0 <= y < 9) by {
        vstd::arithmetic::div_mod::lemma_mod_bound(r / 9, 9);
    }
    assert(0 <= x < 9) by (nonlinear_arith)
        requires
            0 <= r < 729 && x == r / 81,
    ;
}

/// Every candidate node lies in the column its head names, at its position.
pub proof fn lemma_vmem_of_node(n: int)
    requires
        is_row_node(n),
    ensures
        is_header(node_head(n)),
        0 <= node_pos(n) < 9,
        0 <= cand_of(n) < 729,
        0 <= kind_of(n) < 4,
        vmem(node_head(n), node_pos(n)) == n,
{
    let r = cand_of(n);
    let k = kind_of(n);
    assert(0 <= r < 729 && 0 <= k < 4 && n == node_at(r, k)) by {
        vstd::arithmetic::div_mod::lemma_fundamental_div_mod(n - 325, 4);
        vstd::arithmetic::div_mod::lemma_mod_bound(n - 325, 4);
        assert(0 <= r < 729) by (nonlinear_arith)
            requires
                0 <= n - 325 < 2916 && r == (n - 325) / 4,
        ;
    }
    let x = cand_x(r);
    let y = cand_y(r);
    let z = cand_z(r);
    lemma_cand_coords(r);
    if k == 0 {
        let h = 1 + x * 9 + y;
        lemma_divmod(0, x * 9 + y, 81);
        lemma_divmod(x, y, 9);
    } else if k == 1 {
        let h = 1 + 81 + x * 9 + z;
        lemma_divmod(1, x * 9 + z, 81);
        lemma_divmod(x, z, 9);
    } else if k == 2 {
        let h = 1 + 162 + y * 9 + z;
        lemma_divmod(2, y * 9 + z, 81);
        lemma_divmod(y, z, 9);
    } else {
        let bx = cand_box(r);
        let h = 1 + 243 + bx * 9 + z;
        lemma_divmod(3, bx * 9 + z, 81);
        lemma_divmod(bx, z, 9);
        let p = (x % 3) * 3 + y % 3;
        assert(x == (x / 3) * 3 + x % 3 && 0 <= x % 3 < 3) by {
            vstd::arithmetic::div_mod::lemma_fundamental_div_mod(x, 3);
            vstd::arithmetic::div_mod::lemma_mod_bound(x, 3);
        }
        assert(y == (y / 3) * 3 + y % 3 && 0 <= y % 3 < 3) by {
            vstd::arithmetic::div_mod::lemma_fundamental_div_mod(y, 3);
            vstd::arithmetic::div_mod::lemma_mod_bound(y, 3);
        }
        lemma_divmod(x / 3, y / 3, 3);
        lemma_divmod(x % 3, y % 3, 3);
    }
}

/// The member at each position of a column is a candidate node of that
/// column, sitting at that position.
pub proof fn lemma_vmem_inverse(h: int, p: int)
    requires
        is_header(h),
        0 <= p < 9,
    ensures
        is_row_node(vmem(h, p)),
        node_head(vmem(h, p)) == h,
        node_pos(vmem(h, p)) == p,
{
    let g = (h - 1) / 81;
    let q = (h - 1) % 81;
    let a = q / 9;
    let b = q % 9;
    assert(h - 1 == g * 81 + q && 0 <= q < 81 && 0 <= g < 4) by {
        vstd::arithmetic::div_mod::lemma_fundamental_div_mod(h - 1, 81);
        vstd::arithmetic::div_mod::lemma_mod_bound(h - 1, 81);
        assert(0 <= g < 4) by (nonlinear_arith)
            requires
                0 <= h - 1 < 324 && g == (h - 1) / 81,
        ;
    }
    assert(q == a * 9 + b && 0 <= a < 9 && 0 <= b < 9) by {
        vstd::arithmetic::div_mod::lemma_fundamental_div_mod(q, 9);
        vstd::arithmetic::div_mod::lemma_mod_bound(q, 9);
        assert(0 <= a < 9) by (nonlinear_arith)
            requires
                0 <= q < 81 && a == q / 9,
        ;
    }
    if g == 0 {
        let r = (a * 9 + b) * 9 + p;
        lemma_node_at_inverse(r, 0);
        lemma_cand_coords(r);
        lemma_divmod(a * 9 + b, p, 9);
        lemma_divmod(a, b, 9);
    } else if g == 1 {
        let r = (a * 9 + p) * 9 + b;
        lemma_node_at_inverse(r, 1);
        lemma_cand_coords(r);
        lemma_divmod(a * 9 + p, b, 9);
        lemma_divmod(a, p, 9);
    } else if g == 2 {
        let r = (p * 9 + a) * 9 + b;
        lemma_node_at_inverse(r, 2);
        lemma_cand_coords(r);
        lemma_divmod(p * 9 + a, b, 9);
        lemma_divmod(p, a, 9);
    } else {
        let x = (a / 3) * 3 + p / 3;
        let y = (a % 3) * 3 + p % 3;
        assert(0 <= a / 3 < 3 && 0 <= a % 3 < 3 && a == (a / 3) * 3 + a % 3) by {
            vstd::arithmetic::div_mod::lemma_fundamental_div_mod(a, 3);
            vstd::arithmetic::div_mod::lemma_mod_bound(a, 3);
            assert(0 <= a / 3 < 3) by (nonlinear_arith)
                requires
                    0 <= a < 9,
            ;
        }
        assert(0 <= p / 3 < 3 && 0 <= p % 3 < 3 && p == (p / 3) * 3 + p % 3) by {
            vstd::arithmetic::div_mod::lemma_fundamental_div_mod(p, 3);
            vstd::arithmetic::div_mod::lemma_mod_bound(p, 3);
            assert(0 <= p / 3 < 3) by (nonlinear_arith)
                requires
                    0 <= p < 9,
            ;
        }
        let r = (x * 9 + y) * 9 + b;
        lemma_node_at_inverse(r, 3);
        lemma_cand_coords(r);
        lemma_divmod(x * 9 + y, b, 9);
        lemma_divmod(x, y, 9);
        lemma_divmod(x / 3, x % 3, 3);
        lemma_divmod(y / 3, y % 3, 3);
        lemma_divmod(a / 3, y / 3, 3);
        lemma_divmod(a % 3, y % 3, 3);
    }
}

/// Walking right cycles through a candidate's four nodes: the next node
/// shares the candidate, advances the kind by one, and lands in another
/// constraint family's column.
pub proof fn lemma_rnext(n: int)
    requires
        is_row_node(n),
    ensures
        is_row_node(rnext(n)),
        cand_of(rnext(n)) == cand_of(n),
        kind_of(rnext(n)) == if kind_of(n) < 3 { kind_of(n) + 1 } else { 0 },
        rprev(rnext(n)) == n,
{
    lemma_vmem_of_node(n);
    lemma_node_at_inverse(cand_of(n), kind_of(n));
    if kind_of(n) < 3 {
        lemma_node_at_inverse(cand_of(n), kind_of(n) + 1);
    } else {
        lemma_node_at_inverse(cand_of(n), 0);
    }
}

/// The four nodes of one candidate carry four distinct headers, one per
/// constraint family, and the family is told apart by the header's range.
pub proof fn lemma_head_range(n: int)
    requires
        is_row_node(n),
    ensures
        1 + 81 * kind_of(n) <= node_head(n) < 1 + 81 * (kind_of(n) + 1),
{
    lemma_vmem_of_node(n);
    lemma_cand_coords(cand_of(n));
}

} // verus!
