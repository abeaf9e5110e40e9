//! Per-cell candidate sets and the propagation of a placed digit.
use vstd::prelude::*;
use crate::board::peers;

verus! {

/// The digits of `s` other than `d`, in their order.
pub open spec fn without(s: Seq<u32>, d: u32) -> Seq<u32> {
    s.filter(|m: u32| m != d)
}

/// Each element is smaller than the ones after it.
pub open spec fn ascending(s: Seq<u32>) -> bool {
    forall|a: int, b: int| 0 <= a < b < s.len() ==> #[trigger] s[a] < #[trigger] s[b]
}

/// A candidate grid: 81 cells, each an ascending list of digits 1 to 9.
pub open spec fn grid_wf(g: Seq<Seq<u32>>) -> bool {
    &&& g.len() == 81
    &&& forall|i: int| 0 <= i < 81 ==> ascending(#[trigger] g[i])
    &&& forall|i: int, k: int| 0 <= i < 81 && 0 <= k < g[i].len() ==> 1 <= #[trigger] g[i][k] <= 9
}

/// The grid after committing `d` to cell `t`: `t` holds `d` alone and every
/// peer of `t` loses `d`.
pub open spec fn propagated(g: Seq<Seq<u32>>, t: int, d: u32) -> Seq<Seq<u32>> {
    Seq::new(
        81,
        |j: int|
            if j == t {
                seq![d]
            } else if peers(t, j) {
                without(g[j], d)
            } else {
                g[j]
            },
    )
}

/// Committing `d` to cell `t` leaves some peer of `t` without candidates.
pub open spec fn contradicts(g: Seq<Seq<u32>>, t: int, d: u32) -> bool {
    exists|j: int| 0 <= j < 81 && peers(t, j) && #[trigger] without(g[j], d).len() == 0
}

/// Removing a digit keeps exactly the other members, and keeps them ascending.
pub proof fn lemma_without(s: Seq<u32>, d: u32)
    ensures
        forall|x: u32| #[trigger] without(s, d).contains(x) <==> (s.contains(x) && x != d),
        ascending(s) ==> ascending(without(s, d)),
    decreases s.len(),
{
    reveal(Seq::filter);
    if s.len() > 0 {
        let init = s.drop_last();
        let last = s.last();
        lemma_without(init, d);
        assert(s =~= init.push(last));
        let w0 = without(init, d);
        let w = without(s, d);
        assert(w == if last != d { w0.push(last) } else { w0 });
        assert forall|x: u32| s.contains(x) <==> (init.contains(x) || x == last) by {
            if s.contains(x) {
                let k = choose|k: int| 0 <= k < s.len() && s[k] == x;
                if k < s.len() - 1 {
                    assert(init[k] == x);
                }
            }
            if init.contains(x) {
                let k = choose|k: int| 0 <= k < init.len() && init[k] == x;
                assert(s[k] == x);
            }
            if x == last {
                assert(s[s.len() - 1] == x);
            }
        }
        assert forall|x: u32| w.contains(x) <==> (w0.contains(x) || (x == last && last != d)) by {
            if last != d {
                if w.contains(x) {
                    let k = choose|k: int| 0 <= k < w.len() && w[k] == x;
                    if k < w.len() - 1 {
                        assert(w0[k] == x);
                    }
                }
                if w0.contains(x) {
                    let k = choose|k: int| 0 <= k < w0.len() && w0[k] == x;
                    assert(w[k] == x);
                }
                if x == last {
                    assert(w[w.len() - 1] == x);
                }
            }
        }
        if ascending(s) && last != d {
            assert forall|a: int, b: int| 0 <= a < b < w.len() implies #[trigger] w[a] < #[trigger] w[b] by {
                if b == w.len() - 1 {
                    assert(w0.contains(w[a]));
                    let k = choose|k: int| 0 <= k < init.len() && init[k] == w[a];
                    assert(s[k] < s[s.len() - 1]);
                } else {
                    assert(w[a] == w0[a] && w[b] == w0[b]);
                }
            }
        }
    }
}

/// The candidate sets of all 81 cells, in row-major order.
#[derive(Clone, Debug, PartialEq, Eq)]
pub struct SudokuMoveGroups {
    pub values: Vec<Vec<u32>>,
}

impl View for SudokuMoveGroups {
    type V = Seq<Seq<u32>>;

    open spec fn view(&self) -> Seq<Seq<u32>> {
        self.values@.map_values(|v: Vec<u32>| v@)
    }
}

/// A copy of `moves` without `candidate`, in the same order.
pub fn remove_candidate(moves: &Vec<u32>, candidate: u32) -> (r: Vec<u32>)
    ensures
        r@ == without(moves@, candidate),
{
    let mut kept: Vec<u32> = Vec::new();
    let mut k: usize = 0;
    while k < moves.len()
        invariant
            k <= moves.len(),
            kept@ == without(moves@.subrange(0, k as int), candidate),
        decreases moves.len() - k,
    {
        proof {
            reveal(Seq::filter);
            assert(moves@.subrange(0, k + 1).drop_last() =~= moves@.subrange(0, k as int));
        }
        if moves[k] != candidate {
            kept.push(moves[k]);
        }
        k += 1;
    }
    assert(moves@.subrange(0, moves.len() as int) =~= moves@);
    kept
}

/// Commits `candidate` to the cell at row `r`, column `c`: that cell keeps
/// `candidate` alone and each cell of its row, column and box loses it. Fails
/// with `None` when some such cell is left with no candidate. The input grid
/// is not changed.
pub fn propagate_move(r: usize, c: usize, candidate: u32, candidate_moves: &SudokuMoveGroups) -> (res: Option<SudokuMoveGroups>)
    requires
        r < 9,
        c < 9,
        candidate_moves.values.len() == 81,
    ensures
        res is None <==> contradicts(candidate_moves@, r * 9 + c, candidate),
        res matches Some(n) ==> n@ == propagated(candidate_moves@, r * 9 + c, candidate),
        res matches Some(n) ==> n.values.len() == 81,
        candidate_moves@[r * 9 + c] == seq![candidate] ==> (res matches Some(n) ==> n@[r * 9 + c] == candidate_moves@[r * 9 + c]),
{
    let ghost g = candidate_moves@;
    let ghost t = r * 9 + c;
    assert((r * 9 + c) / 9 == r && (r * 9 + c) % 9 == c);
    let mut updated: Vec<Vec<u32>> = Vec::new();
    let mut i: usize = 0;
    while i < 81
        invariant
            i <= 81,
            t == r * 9 + c,
            r < 9,
            c < 9,
            g == candidate_moves@,
            candidate_moves.values.len() == 81,
            updated.len() == i,
            forall|j: int| 0 <= j < i ==> (#[trigger] updated@[j])@ == propagated(g, t, candidate)[j],
            forall|j: int| 0 <= j < i && peers(t, j) ==> #[trigger] without(g[j], candidate).len() != 0,
        decreases 81 - i,
    {
        let cr = i / 9;
        let cc = i % 9;
        if cc == c && cr == r {
            updated.push(vec![candidate]);
            assert(updated@[i as int]@ =~= seq![candidate]);
        } else if cc == c || cr == r || (r / 3 == cr / 3 && c / 3 == cc / 3) {
            let kept = remove_candidate(&candidate_moves.values[i], candidate);
            if kept.len() == 0 {
                assert(peers(t, i as int));
                assert(g[i as int] == candidate_moves.values@[i as int]@);
                assert(without(g[i as int], candidate).len() == 0);
                return None;
            }
            updated.push(kept);
        } else {
            updated.push(candidate_moves.values[i].clone());
        }
        i += 1;
    }
    let n = SudokuMoveGroups { values: updated };
    assert(n@ =~= propagated(g, t, candidate));
    Some(n)
}

} // verus!
