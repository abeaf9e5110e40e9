//! Sequential depth-first search over candidate grids.
use vstd::prelude::*;
use crate::board::{peers, is_valid_solution, SudokuBoard};
use crate::candidates::{
    without, ascending, grid_wf, propagated, contradicts, lemma_without, propagate_move,
    SudokuMoveGroups,
};

verus! {

/// Every cell value of `s` is still a candidate of its cell in `g`.
pub open spec fn fits(g: Seq<Seq<u32>>, s: Seq<u32>) -> bool {
    forall|i: int| 0 <= i < 81 ==> #[trigger] g[i].contains(s[i])
}

/// Some valid completed grid fits the candidates of `g`.
pub open spec fn has_solution(g: Seq<Seq<u32>>) -> bool {
    exists|s: Seq<u32>| is_valid_solution(s) && #[trigger] fits(g, s)
}

/// `a` and `b` agree before index `k` and `a` is smaller at `k`.
pub open spec fn smaller_at(a: Seq<u32>, b: Seq<u32>, k: int) -> bool {
    &&& 0 <= k < a.len()
    &&& k < b.len()
    &&& a[k] < b[k]
    &&& forall|i: int| 0 <= i < k ==> a[i] == b[i]
}

/// `a` comes no later than `b` in row-major (lexicographic) order.
pub open spec fn lex_le(a: Seq<u32>, b: Seq<u32>) -> bool {
    a == b || exists|k: int| #[trigger] smaller_at(a, b, k)
}

/// `s` is the first, in row-major order, of the valid completed grids that
/// fit the candidates of `g`.
pub open spec fn is_first_solution(g: Seq<Seq<u32>>, s: Seq<u32>) -> bool {
    &&& is_valid_solution(s)
    &&& fits(g, s)
    &&& forall|s2: Seq<u32>| is_valid_solution(s2) && #[trigger] fits(g, s2) ==> lex_le(s, s2)
}

/// The cells before `p` hold one candidate each, and no peer of such a cell
/// still has that digit as a candidate.
pub open spec fn settled(g: Seq<Seq<u32>>, p: int) -> bool {
    &&& forall|i: int| 0 <= i < p ==> (#[trigger] g[i]).len() == 1
    &&& forall|i: int, j: int|
        0 <= i < p && 0 <= j < 81 && peers(i, j) ==> !(#[trigger] g[j].contains(#[trigger] g[i][0]))
}

/// The first candidate of each cell.
pub open spec fn grid_values(g: Seq<Seq<u32>>) -> Seq<u32> {
    Seq::new(81, |i: int| g[i][0])
}

proof fn lemma_singleton_without(s: Seq<u32>, d: u32)
    requires
        s.len() == 1,
        s[0] != d,
    ensures
        without(s, d) == s,
{
    reveal(Seq::filter);
    assert(s.drop_last() =~= Seq::<u32>::empty());
    assert(without(s, d) =~= s);
}

proof fn lemma_contains_index(s: Seq<u32>, k: int)
    requires
        0 <= k < s.len(),
    ensures
        s.contains(s[k]),
{
}

/// A valid grid that fits `g` and puts `d` at `t` fits the propagated grid,
/// so that propagation cannot fail.
proof fn lemma_fits_propagated(g: Seq<Seq<u32>>, t: int, d: u32, s: Seq<u32>)
    requires
        g.len() == 81,
        0 <= t < 81,
        is_valid_solution(s),
        fits(g, s),
        s[t] == d,
    ensures
        fits(propagated(g, t, d), s),
        !contradicts(g, t, d),
{
    let p = propagated(g, t, d);
    assert forall|j: int| 0 <= j < 81 implies #[trigger] p[j].contains(s[j]) by {
        assert(g[j].contains(s[j]));
        if j == t {
            assert(p[j][0] == d);
        } else if peers(t, j) {
            assert(s[t] != s[j]);
            lemma_without(g[j], d);
        }
    }
    assert forall|j: int| 0 <= j < 81 && peers(t, j) implies #[trigger] without(g[j], d).len() != 0 by {
        assert(p[j].contains(s[j]));
    }
}

/// Propagating a digit gives a well-formed grid in which cell `t` holds
/// that digit alone and every other cell only lost candidates.
proof fn lemma_propagated_wf(g: Seq<Seq<u32>>, t: int, d: u32)
    requires
        grid_wf(g),
        0 <= t < 81,
        1 <= d <= 9,
    ensures
        grid_wf(propagated(g, t, d)),
        propagated(g, t, d)[t] == seq![d],
        forall|j: int, x: u32| 0 <= j < 81 && j != t && #[trigger] propagated(g, t, d)[j].contains(x) ==> g[j].contains(x),
        forall|j: int| 0 <= j < 81 && peers(t, j) ==> !(#[trigger] propagated(g, t, d)[j].contains(d)),
{
    let p = propagated(g, t, d);
    assert forall|j: int, x: u32| 0 <= j < 81 && j != t && #[trigger] p[j].contains(x) implies g[j].contains(x) by {
        if peers(t, j) {
            lemma_without(g[j], d);
        }
    }
    assert forall|j: int| 0 <= j < 81 && peers(t, j) implies !(#[trigger] p[j].contains(d)) by {
        lemma_without(g[j], d);
    }
    assert forall|i: int| 0 <= i < 81 implies ascending(#[trigger] p[i]) by {
        if i != t && peers(t, i) {
            lemma_without(g[i], d);
        }
    }
    assert forall|i: int, k: int| 0 <= i < 81 && 0 <= k < p[i].len() implies 1 <= #[trigger] p[i][k] <= 9 by {
        if i != t {
            lemma_contains_index(p[i], k);
            assert(g[i].contains(p[i][k]));
        }
    }
}

/// Propagating a candidate of cell `t` into a grid settled up to `t` gives a
/// well-formed grid settled up to `t + 1` whose cells only lost candidates.
proof fn lemma_propagated_step(g: Seq<Seq<u32>>, t: int, d: u32)
    requires
        grid_wf(g),
        0 <= t < 81,
        settled(g, t),
        g[t].contains(d),
        !contradicts(g, t, d),
    ensures
        grid_wf(propagated(g, t, d)),
        settled(propagated(g, t, d), t + 1),
        forall|j: int, x: u32| 0 <= j < 81 && #[trigger] propagated(g, t, d)[j].contains(x) ==> g[j].contains(x),
        forall|i: int| 0 <= i < t ==> #[trigger] propagated(g, t, d)[i] == g[i],
{
    let p = propagated(g, t, d);
    assert(1 <= d <= 9);
    lemma_propagated_wf(g, t, d);
    assert forall|j: int, x: u32| 0 <= j < 81 && #[trigger] p[j].contains(x) implies g[j].contains(x) by {
        if j == t {
            assert(p[j] =~= seq![d]);
        }
    }
    assert forall|i: int| 0 <= i < t implies #[trigger] p[i] == g[i] by {
        if peers(t, i) {
            assert(peers(i, t));
            lemma_contains_index(g[i], 0);
            assert(!g[t].contains(g[i][0]));
            lemma_singleton_without(g[i], d);
        }
    }
    assert forall|i: int, j: int|
        0 <= i < t + 1 && 0 <= j < 81 && peers(i, j) implies !(#[trigger] p[j].contains(#[trigger] p[i][0])) by {
        if i == t {
            assert(p[i][0] == d);
        } else {
            assert(p[i] == g[i]);
            if p[j].contains(p[i][0]) {
                if j == t {
                    assert(p[j] =~= seq![d]);
                    assert(peers(j, i));
                }
                assert(g[j].contains(g[i][0]));
            }
        }
    }
}

/// A grid settled up to its last cell holds one valid completed grid.
proof fn lemma_settled_complete(g: Seq<Seq<u32>>)
    requires
        grid_wf(g),
        settled(g, 81),
    ensures
        is_valid_solution(grid_values(g)),
        fits(g, grid_values(g)),
        forall|s: Seq<u32>| #[trigger] fits(g, s) && s.len() == 81 ==> s == grid_values(g),
{
    let v = grid_values(g);
    assert forall|i: int| 0 <= i < 81 implies 1 <= #[trigger] v[i] <= 9 by {
        assert(g[i].len() == 1);
    }
    assert forall|i: int, j: int| 0 <= i < 81 && 0 <= j < 81 && peers(i, j) implies #[trigger] v[i] != #[trigger] v[j] by {
        assert(g[j].len() == 1);
        lemma_contains_index(g[j], 0);
        assert(!g[j].contains(g[i][0]));
    }
    assert forall|i: int| 0 <= i < 81 implies #[trigger] g[i].contains(v[i]) by {
        assert(g[i].len() == 1);
        lemma_contains_index(g[i], 0);
    }
    assert forall|s: Seq<u32>| #[trigger] fits(g, s) && s.len() == 81 implies s == grid_values(g) by {
        assert forall|i: int| 0 <= i < 81 implies s[i] == v[i] by {
            assert(g[i].contains(s[i]));
            assert(g[i].len() == 1);
        }
        assert(s =~= v);
    }
}

/// Searches the cells from `pos` on, in row-major order, trying the
/// candidates of each cell in ascending order and propagating each one
/// before going on. Returns the grid of the first completion found, or
/// `None` when no completion fits `moves`.
pub fn try_candidates(moves: &SudokuMoveGroups, pos: (usize, usize)) -> (res: Option<SudokuMoveGroups>)
    requires
        pos.0 < 9,
        pos.1 < 9,
        moves.values.len() == 81,
        grid_wf(moves@),
        settled(moves@, pos.0 * 9 + pos.1),
    ensures
        res is Some <==> has_solution(moves@),
        res matches Some(n) ==> n.values.len() == 81 && grid_wf(n@) && settled(n@, 81),
        res matches Some(n) ==> is_first_solution(moves@, grid_values(n@)),
    decreases 81 - (pos.0 * 9 + pos.1),
{
    let r = pos.0;
    let c = pos.1;
    let ghost g = moves@;
    let ghost t = r * 9 + c;
    let cell = &moves.values[r * 9 + c];
    assert(cell@ == g[t]);
    let mut k: usize = 0;
    while k < cell.len()
        invariant
            r == pos.0,
            c == pos.1,
            r < 9,
            c < 9,
            t == r * 9 + c,
            g == moves@,
            cell@ == g[t],
            moves.values.len() == 81,
            grid_wf(g),
            settled(g, t),
            k <= cell.len(),
            forall|s: Seq<u32>, k2: int|
                #![trigger fits(g, s), cell@[k2]]
                0 <= k2 < k && is_valid_solution(s) && fits(g, s) ==> s[t] != cell@[k2],
        decreases cell.len() - k,
    {
        let candidate = cell[k];
        proof {
            lemma_contains_index(g[t], k as int);
        }
        match propagate_move(r, c, candidate, moves) {
            Some(next) => {
                let ghost p = next@;
                proof {
                    lemma_propagated_step(g, t, candidate);
                }
                // every solution that puts a smaller digit at `t` was ruled out
                assert forall|s: Seq<u32>| is_valid_solution(s) && #[trigger] fits(g, s) && s[t] != candidate implies s[t] > candidate by {
                    assert(g[t].contains(s[t]));
                    let k3 = choose|k3: int| 0 <= k3 < g[t].len() && g[t][k3] == s[t];
                    if k3 < k {
                        assert(s[t] != cell@[k3]);
                    }
                }
                if r == 8 && c == 8 {
                    proof {
                        lemma_settled_complete(p);
                        let v = grid_values(p);
                        assert forall|i: int| 0 <= i < 81 implies #[trigger] g[i].contains(v[i]) by {
                            assert(p[i].contains(v[i]));
                        }
                        assert(fits(g, v));
                        assert forall|s2: Seq<u32>| is_valid_solution(s2) && #[trigger] fits(g, s2) implies lex_le(v, s2) by {
                            if s2[t] == candidate {
                                lemma_fits_propagated(g, t, candidate, s2);
                                assert(fits(p, s2));
                            } else {
                                assert forall|i: int| 0 <= i < t implies v[i] == s2[i] by {
                                    assert(g[i].contains(s2[i]));
                                    assert(p[i] == g[i]);
                                    assert(g[i].len() == 1);
                                }
                                assert(p[t][0] == candidate);
                                assert(smaller_at(v, s2, t));
                            }
                        }
                    }
                    return Some(next);
                }
                let next_pos = if c == 8 { (r + 1, 0) } else { (r, c + 1) };
                assert(next_pos.0 * 9 + next_pos.1 == t + 1);
                assert(81 - (next_pos.0 * 9 + next_pos.1) < 81 - (pos.0 * 9 + pos.1));
                match try_candidates(&next, next_pos) {
                    Some(solved) => {
                        proof {
                            let v = grid_values(solved@);
                            assert forall|i: int| 0 <= i < 81 implies #[trigger] g[i].contains(v[i]) by {
                                assert(p[i].contains(v[i]));
                            }
                            assert(fits(g, v));
                            assert forall|s2: Seq<u32>| is_valid_solution(s2) && #[trigger] fits(g, s2) implies lex_le(v, s2) by {
                                if s2[t] == candidate {
                                    lemma_fits_propagated(g, t, candidate, s2);
                                    assert(fits(p, s2));
                                } else {
                                    assert forall|i: int| 0 <= i < t implies v[i] == s2[i] by {
                                        assert(g[i].contains(s2[i]));
                                        assert(p[i].contains(v[i]));
                                        assert(p[i] == g[i]);
                                        assert(g[i].len() == 1);
                                    }
                                    assert(p[t].contains(v[t]));
                                    assert(p[t] =~= seq![candidate]);
                                    assert(smaller_at(v, s2, t));
                                }
                            }
                        }
                        return Some(solved);
                    },
                    None => {
                        assert forall|s: Seq<u32>, k2: int|
                            #![trigger fits(g, s), cell@[k2]]
                            0 <= k2 < k + 1 && is_valid_solution(s) && fits(g, s) implies s[t] != cell@[k2] by {
                            if k2 == k && s[t] == candidate {
                                lemma_fits_propagated(g, t, candidate, s);
                                assert(fits(p, s));
                            }
                        }
                    },
                }
            },
            None => {
                assert forall|s: Seq<u32>, k2: int|
                    #![trigger fits(g, s), cell@[k2]]
                            0 <= k2 < k + 1 && is_valid_solution(s) && fits(g, s) implies s[t] != cell@[k2] by {
                    if k2 == k && s[t] == candidate {
                        lemma_fits_propagated(g, t, candidate, s);
                    }
                }
            },
        }
        k += 1;
    }
    assert forall|s: Seq<u32>| is_valid_solution(s) implies !#[trigger] fits(g, s) by {
        if fits(g, s) {
            assert(g[t].contains(s[t]));
            let k3 = choose|k3: int| 0 <= k3 < g[t].len() && g[t][k3] == s[t];
            assert(s[t] != cell@[k3]);
        }
    }
    None
}

/// The digits 1 to 9 in ascending order: the candidates of an empty cell.
pub open spec fn full_candidates() -> Seq<u32> {
    Seq::new(9, |k: int| (k + 1) as u32)
}

/// The candidates a cell starts with: all digits when it is empty, else the
/// given digit alone.
pub open spec fn initial_candidates(v: u32) -> Seq<u32> {
    if v == 0 {
        full_candidates()
    } else {
        seq![v]
    }
}

/// The candidate grid a board starts the search with.
pub open spec fn initial_grid(board: SudokuBoard) -> Seq<Seq<u32>> {
    Seq::new(81, |i: int| initial_candidates(board.cell(i)))
}

/// `s` is the first, in row-major order, of the valid completed grids that
/// keep the given digits of `board`.
pub open spec fn is_first_solution_of(board: SudokuBoard, s: Seq<u32>) -> bool {
    &&& board.is_solved_by(s)
    &&& forall|s2: Seq<u32>| #[trigger] board.is_solved_by(s2) ==> lex_le(s, s2)
}

/// What solving `board` owes: a board exactly when some valid completion
/// keeps the given digits, and then the first such completion.
pub open spec fn is_solve_result(board: SudokuBoard, r: Option<SudokuBoard>) -> bool {
    &&& r is Some <==> exists|s: Seq<u32>| #[trigger] board.is_solved_by(s)
    &&& r matches Some(b) ==> is_first_solution_of(board, b.cells())
}

/// The valid grids that fit the starting candidates of a board are exactly
/// its solutions.
proof fn lemma_initial_grid(board: SudokuBoard)
    requires
        board.wf(),
    ensures
        grid_wf(initial_grid(board)),
        forall|s: Seq<u32>| is_valid_solution(s) ==> (#[trigger] fits(initial_grid(board), s) <==> board.is_solved_by(s)),
{
    let g = initial_grid(board);
    assert forall|i: int, k: int| 0 <= i < 81 && 0 <= k < g[i].len() implies 1 <= #[trigger] g[i][k] <= 9 by {
        assert(board.cell(i) <= 9);
    }
    assert forall|s: Seq<u32>| is_valid_solution(s) implies (#[trigger] fits(g, s) <==> board.is_solved_by(s)) by {
        assert forall|i: int| 0 <= i < 81 implies (#[trigger] g[i].contains(s[i]) <==> (board.cell(i) != 0 ==> s[i] == board.cell(i))) by {
            assert(1 <= s[i] <= 9);
            if board.cell(i) == 0 {
                assert(g[i][s[i] - 1] == s[i]);
            } else {
                assert(g[i][0] == board.cell(i));
            }
        }
        if fits(g, s) {
            assert forall|i: int| 0 <= i < 81 && board.cell(i) != 0 implies s[i] == #[trigger] board.cell(i) by {
                assert(g[i].contains(s[i]));
            }
        }
        if board.is_solved_by(s) {
            assert forall|i: int| 0 <= i < 81 implies #[trigger] g[i].contains(s[i]) by {
                assert(board.cell(i) != 0 ==> s[i] == board.cell(i));
            }
        }
    }
}

/// Solves one board: the first completion, in row-major order, that keeps
/// its given digits, or `None` when there is none. Empty cells start with
/// every digit and given cells with their digit alone; each given digit is
/// then propagated before the search starts at the first cell.
pub fn solve_board(board: &SudokuBoard) -> (res: Option<SudokuBoard>)
    requires
        board.wf(),
    ensures
        is_solve_result(*board, res),
{
    let cells = board.to_cells();
    let mut values: Vec<Vec<u32>> = Vec::new();
    let mut i: usize = 0;
    while i < 81
        invariant
            i <= 81,
            cells@ == board.cells(),
            values.len() == i,
            forall|j: int| 0 <= j < i ==> (#[trigger] values@[j])@ == initial_candidates(board.cell(j)),
        decreases 81 - i,
    {
        let cell = cells[i];
        if cell == 0 {
            let all = vec![1, 2, 3, 4, 5, 6, 7, 8, 9];
            assert(all@ =~= full_candidates());
            values.push(all);
        } else {
            let one = vec![cell];
            assert(one@ =~= seq![cell]);
            values.push(one);
        }
        i += 1;
    }
    let mut moves = SudokuMoveGroups { values };
    let ghost g0 = initial_grid(*board);
    assert(moves@ =~= g0);
    proof {
        lemma_initial_grid(*board);
    }
    // commit each given digit before the search, so that it constrains the
    // cells that come before it in row-major order
    let mut i: usize = 0;
    while i < 81
        invariant
            i <= 81,
            board.wf(),
            cells@ == board.cells(),
            moves.values.len() == 81,
            grid_wf(moves@),
            forall|k: int| 0 <= k < 81 && board.cell(k) != 0 ==> #[trigger] moves@[k] == seq![board.cell(k)],
            forall|s: Seq<u32>| is_valid_solution(s) ==> (#[trigger] fits(moves@, s) <==> board.is_solved_by(s)),
        decreases 81 - i,
    {
        let cell = cells[i];
        if cell != 0 {
            let ghost g = moves@;
            assert((i / 9) * 9 + i % 9 == i);
            match propagate_move(i / 9, i % 9, cell, &moves) {
                Some(next) => {
                    proof {
                        assert(board.cell(i as int) == cell);
                        assert(g[i as int] == seq![cell]);
                        lemma_propagated_wf(g, i as int, cell);
                        let p = next@;
                        assert(p == propagated(g, i as int, cell));
                        assert forall|k: int| 0 <= k < 81 && board.cell(k) != 0 implies #[trigger] p[k] == seq![board.cell(k)] by {
                            if k != i && peers(i as int, k) {
                                if board.cell(k) == cell {
                                    lemma_without(g[k], cell);
                                    let w = without(g[k], cell);
                                    if w.len() > 0 {
                                        lemma_contains_index(w, 0);
                                        assert(g[k].contains(w[0]));
                                        assert(g[k][0] == cell);
                                    }
                                    assert(w.len() == 0);
                                } else {
                                    lemma_singleton_without(g[k], cell);
                                }
                            }
                        }
                        assert forall|s: Seq<u32>| is_valid_solution(s) implies (#[trigger] fits(p, s) <==> board.is_solved_by(s)) by {
                            if board.is_solved_by(s) {
                                assert(fits(g, s));
                                assert(s[i as int] == board.cell(i as int));
                                lemma_fits_propagated(g, i as int, cell, s);
                                assert(fits(p, s));
                            }
                            if fits(p, s) {
                                assert forall|j: int| 0 <= j < 81 implies #[trigger] g[j].contains(s[j]) by {
                                    assert(p[j].contains(s[j]));
                                    if j == i {
                                        assert(p[j] == seq![cell]);
                                        assert(p[j][0] == s[j]);
                                        assert(g[j][0] == s[j]);
                                        lemma_contains_index(g[j], 0);
                                    }
                                }
                                assert(fits(g, s));
                                assert(board.is_solved_by(s));
                            }
                        }
                    }
                    moves = next;
                },
                None => {
                    assert forall|s: Seq<u32>| !#[trigger] board.is_solved_by(s) by {
                        if board.is_solved_by(s) {
                            assert(fits(g, s));
                            assert(s[i as int] == board.cell(i as int));
                            lemma_fits_propagated(g, i as int, cell, s);
                        }
                    }
                    return None;
                },
            }
        }
        i += 1;
    }
    let ghost g = moves@;
    match try_candidates(&moves, (0, 0)) {
        Some(solved) => {
            let ghost v = grid_values(solved@);
            let mut out: [u32; 81] = [0; 81];
            let mut i: usize = 0;
            while i < 81
                invariant
                    i <= 81,
                    solved.values.len() == 81,
                    settled(solved@, 81),
                    v == grid_values(solved@),
                    forall|j: int| 0 <= j < i ==> out@[j] == v[j],
                decreases 81 - i,
            {
                assert(solved@[i as int].len() == 1);
                out[i] = solved.values[i][0];
                i += 1;
            }
            assert(out@ =~= v);
            let b = SudokuBoard::from_cells(out);
            proof {
                assert(board.is_solved_by(v));
                assert forall|s2: Seq<u32>| #[trigger] board.is_solved_by(s2) implies lex_le(v, s2) by {
                    assert(fits(g, s2));
                }
            }
            Some(b)
        },
        None => {
            assert forall|s: Seq<u32>| !#[trigger] board.is_solved_by(s) by {
                if board.is_solved_by(s) {
                    assert(fits(g, s));
                }
            }
            None
        },
    }
}

/// Solves each board on its own, keeping the order of the input.
pub fn cpu_solve_boards(boards: &Vec<SudokuBoard>) -> (res: Vec<Option<SudokuBoard>>)
    requires
        forall|i: int| 0 <= i < boards.len() ==> (#[trigger] boards@[i]).wf(),
    ensures
        res.len() == boards.len(),
        forall|i: int| 0 <= i < boards.len() ==> is_solve_result(#[trigger] boards@[i], res@[i]),
{
    let mut res: Vec<Option<SudokuBoard>> = Vec::new();
    let mut i: usize = 0;
    while i < boards.len()
        invariant
            i <= boards.len(),
            res.len() == i,
            forall|i: int| 0 <= i < boards.len() ==> (#[trigger] boards@[i]).wf(),
            forall|j: int| 0 <= j < i ==> is_solve_result(#[trigger] boards@[j], res@[j]),
        decreases boards.len() - i,
    {
        res.push(solve_board(&boards[i]));
        i += 1;
    }
    res
}

/// Row-major order is antisymmetric on full grids.
proof fn lemma_lex_antisymmetric(a: Seq<u32>, b: Seq<u32>)
    requires
        lex_le(a, b),
        lex_le(b, a),
    ensures
        a == b,
{
    if a != b {
        let k1 = choose|k: int| #[trigger] smaller_at(a, b, k);
        let k2 = choose|k: int| #[trigger] smaller_at(b, a, k);
        if k1 < k2 {
            assert(b[k1] == a[k1]);
        } else if k2 < k1 {
            assert(a[k2] == b[k2]);
        }
    }
}

/// Determinism: all that solving owes on one board pins a single result, so
/// every run on the same board returns the same value.
pub proof fn lemma_solve_result_unique(board: SudokuBoard, r1: Option<SudokuBoard>, r2: Option<SudokuBoard>)
    requires
        is_solve_result(board, r1),
        is_solve_result(board, r2),
    ensures
        r1 == r2,
{
    if let (Some(b1), Some(b2)) = (r1, r2) {
        lemma_lex_antisymmetric(b1.cells(), b2.cells());
        assert forall|i: int, j: int| 0 <= i < 9 && 0 <= j < 9 implies b1.values[i][j] == b2.values[i][j] by {
            assert((i * 9 + j) / 9 == i && (i * 9 + j) % 9 == j);
            assert(b1.cells()[i * 9 + j] == b2.cells()[i * 9 + j]);
        }
        assert forall|i: int| 0 <= i < 9 implies b1.values[i] == b2.values[i] by {
            assert(b1.values[i] =~= b2.values[i]);
        }
        assert(b1.values =~= b2.values);
    }
}

/// Two equal given digits in one row, column or box leave a board without a
/// valid completion, so solving it returns `None`.
pub proof fn lemma_duplicate_unsolvable(board: SudokuBoard, i: int, j: int, r: Option<SudokuBoard>)
    requires
        0 <= i < 81,
        0 <= j < 81,
        peers(i, j),
        board.cell(i) != 0,
        board.cell(i) == board.cell(j),
        is_solve_result(board, r),
    ensures
        forall|s: Seq<u32>| !#[trigger] board.is_solved_by(s),
        r is None,
{
    assert forall|s: Seq<u32>| !#[trigger] board.is_solved_by(s) by {
        if board.is_solved_by(s) {
            assert(s[i] == board.cell(i));
            assert(s[j] == board.cell(j));
        }
    }
}

} // verus!
