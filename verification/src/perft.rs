//! Counting the leaves of the tree of legal moves.

use vstd::prelude::*;
use crate::position::{Position, Standard};
use crate::types::Move;

verus! {

/// Whether `l` holds the legal moves of `pos`, each once.
pub open spec fn enumerates<P: Position>(pos: P, l: Seq<Move>) -> bool {
    l.no_duplicates() && forall|m: Move| #![trigger l.contains(m)] l.contains(m) <==> pos.legal(m)
}

/// The legal moves of `pos` in some order, each once.
pub open spec fn legal_list<P: Position>(pos: P) -> Seq<Move> {
    choose|l: Seq<Move>| enumerates(pos, l)
}

/// The number of leaves of the tree of legal moves of `pos` that is `depth` moves deep:
/// 1 for depth 0, and otherwise the sum, over the legal moves, of the number of leaves
/// one move less deep of the position after the move.
pub open spec fn leaves<P: Position>(pos: P, depth: nat) -> nat
    decreases depth, 1nat, 0nat,
{
    if depth == 0 {
        1
    } else {
        leaves_below(pos, legal_list(pos), depth, legal_list(pos).len())
    }
}

/// The sum, over the first `n` moves of `l`, of the number of leaves `depth - 1` moves
/// deep of the position after the move.
pub open spec fn leaves_below<P: Position>(pos: P, l: Seq<Move>, depth: nat, n: nat) -> nat
    decreases depth, 0nat, n,
{
    if n == 0 || depth == 0 {
        0
    } else {
        leaves_below(pos, l, depth, (n - 1) as nat) + leaves(pos.after(l[n - 1]), (depth - 1) as nat)
    }
}

/// Whether every line of legal moves from `pos` that is `depth` moves long can be carried
/// out.
pub open spec fn playable_to<P: Position>(pos: P, depth: nat) -> bool
    decreases depth,
{
    depth == 0 || forall|m: Move|
        #![trigger pos.legal(m)]
        pos.legal(m) ==> pos.can_do(m) && playable_to(pos.after(m), (depth - 1) as nat)
}

/// The sum of `f` over all of `l`.
pub open spec fn sum_all(l: Seq<Move>, f: spec_fn(Move) -> nat) -> nat
    decreases l.len(),
{
    if l.len() == 0 {
        0
    } else {
        sum_all(l.drop_last(), f) + f(l.last())
    }
}

/// A sum is the sum without one term, and that term.
proof fn lemma_sum_remove(l: Seq<Move>, f: spec_fn(Move) -> nat, j: int)
    requires
        0 <= j < l.len(),
    ensures
        sum_all(l, f) == sum_all(l.remove(j), f) + f(l[j]),
    decreases l.len(),
{
    if j == l.len() - 1 {
        assert(l.remove(j) =~= l.drop_last());
    } else {
        lemma_sum_remove(l.drop_last(), f, j);
        assert(l.remove(j).drop_last() =~= l.drop_last().remove(j));
        assert(l.remove(j).last() == l.last());
    }
}

/// Two lists without repetitions that hold the same moves give the same sum.
proof fn lemma_sum_same_moves(a: Seq<Move>, b: Seq<Move>, f: spec_fn(Move) -> nat)
    requires
        a.no_duplicates(),
        b.no_duplicates(),
        forall|m: Move| #![trigger a.contains(m)] a.contains(m) <==> b.contains(m),
    ensures
        sum_all(a, f) == sum_all(b, f),
        a.len() == b.len(),
    decreases a.len(),
{
    if a.len() == 0 {
        if b.len() > 0 {
            assert(b.contains(b[0]));
            assert(a.contains(b[0]));
        }
    } else {
        let x = a.last();
        assert(a.contains(x));
        assert(b.contains(x));
        let j = choose|j: int| 0 <= j < b.len() && b[j] == x;
        let a1 = a.drop_last();
        let b1 = b.remove(j);
        assert forall|m: Move| #![trigger a1.contains(m)] a1.contains(m) <==> b1.contains(m) by {
            if a1.contains(m) {
                let i = choose|i: int| 0 <= i < a1.len() && a1[i] == m;
                assert(a[i] == m);
                assert(a.contains(m));
                assert(m != x);
                let k = choose|k: int| 0 <= k < b.len() && b[k] == m;
                if k < j {
                    assert(b1[k] == m);
                } else {
                    assert(b1[k - 1] == m);
                }
            }
            if b1.contains(m) {
                let k = choose|k: int| 0 <= k < b1.len() && b1[k] == m;
                let k0 = if k < j {
                    k
                } else {
                    k + 1
                };
                assert(b[k0] == m);
                assert(k0 != j);
                assert(b.contains(m));
                assert(m != x);
                assert(a.contains(m));
                let i = choose|i: int| 0 <= i < a.len() && a[i] == m;
                assert(i != a.len() - 1);
                assert(a1[i] == m);
            }
        }
        assert forall|p: int, q: int| 0 <= p < b1.len() && 0 <= q < b1.len() && p
            != q implies b1[p] != b1[q] by {
            let h0 = if p < j {
                p
            } else {
                p + 1
            };
            let q0 = if q < j {
                q
            } else {
                q + 1
            };
            assert(b1[p] == b[h0] && b1[q] == b[q0]);
        }
        lemma_sum_same_moves(a1, b1, f);
        lemma_sum_remove(b, f, j);
    }
}

/// The sum over the first `n` moves of a list, as a sum over a list.
proof fn lemma_leaves_below<P: Position>(pos: P, l: Seq<Move>, depth: nat, n: nat)
    requires
        depth > 0,
        n <= l.len(),
    ensures
        leaves_below(pos, l, depth, n) == sum_all(
            l.subrange(0, n as int),
            |m: Move| leaves(pos.after(m), (depth - 1) as nat),
        ),
    decreases n,
{
    let f = |m: Move| leaves(pos.after(m), (depth - 1) as nat);
    if n > 0 {
        lemma_leaves_below(pos, l, depth, (n - 1) as nat);
        let s = l.subrange(0, n as int);
        assert(s.drop_last() =~= l.subrange(0, n - 1));
        assert(s.last() == l[n - 1]);
    }
}

/// The number of leaves is the sum over any list that holds the legal moves, each once.
pub proof fn lemma_leaves<P: Position>(pos: P, l: Seq<Move>, depth: nat)
    requires
        depth > 0,
        enumerates(pos, l),
    ensures
        leaves(pos, depth) == leaves_below(pos, l, depth, l.len()),
        legal_list(pos).len() == l.len(),
{
    let chosen = legal_list(pos);
    assert(enumerates(pos, chosen));
    let f = |m: Move| leaves(pos.after(m), (depth - 1) as nat);
    lemma_leaves_below(pos, l, depth, l.len());
    lemma_leaves_below(pos, chosen, depth, chosen.len());
    assert(l.subrange(0, l.len() as int) =~= l);
    assert(chosen.subrange(0, chosen.len() as int) =~= chosen);
    assert forall|m: Move| #![trigger l.contains(m)] l.contains(m) <==> chosen.contains(m) by {
        assert(chosen.contains(m) <==> pos.legal(m));
    }
    lemma_sum_same_moves(l, chosen, f);
}

/// One move deep, the number of leaves is the number of moves.
proof fn lemma_leaves_below_one<P: Position>(pos: P, l: Seq<Move>, n: nat)
    requires
        n <= l.len(),
    ensures
        leaves_below(pos, l, 1, n) == n,
    decreases n,
{
    if n > 0 {
        lemma_leaves_below_one(pos, l, (n - 1) as nat);
        assert(leaves(pos.after(l[n - 1]), 0) == 1);
    }
}

/// The sum over more moves is no smaller.
proof fn lemma_leaves_below_grows<P: Position>(pos: P, l: Seq<Move>, depth: nat, n: nat, k: nat)
    requires
        n <= k,
    ensures
        leaves_below(pos, l, depth, n) <= leaves_below(pos, l, depth, k),
    decreases k,
{
    if n < k {
        lemma_leaves_below_grows(pos, l, depth, n, (k - 1) as nat);
    }
}

/// The number of leaves of the tree of legal moves of `pos` that is `depth` moves deep,
/// or nothing if that number does not fit 64 bits.
pub fn perft<P: Position>(pos: &P, depth: u8) -> (r: Option<u64>)
    requires
        pos.valid(),
        playable_to(*pos, depth as nat),
    ensures
        r == if leaves(*pos, depth as nat) <= u64::MAX {
            Some(leaves(*pos, depth as nat) as u64)
        } else {
            None::<u64>
        },
    decreases depth,
{
    if depth == 0 {
        return Some(1);
    }
    let mut moves: Vec<Move> = Vec::new();
    pos.legal_moves(&mut moves);
    proof {
        let e = Seq::<Move>::empty();
        assert forall|c: Move| #![trigger e.contains(c)] !e.contains(c) by {}
        assert(enumerates(*pos, moves@));
        lemma_leaves(*pos, moves@, depth as nat);
    }
    if depth == 1 {
        proof {
            lemma_leaves_below_one(*pos, moves@, moves@.len());
        }
        return Some(moves.len() as u64);
    }
    let mut total: u64 = 0;
    let mut i: usize = 0;
    while i < moves.len()
        invariant
            0 <= i <= moves.len(),
            depth > 1,
            pos.valid(),
            playable_to(*pos, depth as nat),
            enumerates(*pos, moves@),
            leaves(*pos, depth as nat) == leaves_below(*pos, moves@, depth as nat, moves@.len()),
            total == leaves_below(*pos, moves@, depth as nat, i as nat),
        decreases moves.len() - i,
    {
        let m = moves[i];
        proof {
            assert(moves@.contains(m));
            assert(pos.legal(m));
            pos.lemma_valid_after(m);
            lemma_leaves_below_grows(*pos, moves@, depth as nat, (i + 1) as nat, moves@.len());
        }
        let child = (*pos).do_move(&m);
        match perft(&child, depth - 1) {
            None => {
                return None;
            },
            Some(n) => {
                if n > u64::MAX - total {
                    return None;
                }
                total = total + n;
            },
        }
        i = i + 1;
    }
    Some(total)
}

/// In orthodox chess every line of legal moves can be carried out as long as the counters
/// have room.
pub proof fn lemma_standard_playable_to(pos: Standard, depth: nat)
    requires
        pos.halfmove_clock + depth <= u32::MAX,
        pos.fullmoves + depth <= u32::MAX,
    ensures
        playable_to(pos, depth),
    decreases depth,
{
    if depth > 0 {
        assert forall|m: Move| #![trigger pos.legal(m)] pos.legal(m) implies pos.can_do(m)
            && playable_to(pos.after(m), (depth - 1) as nat) by {
            pos.lemma_candidate_wf(m);
            lemma_standard_playable_to(pos.do_move_spec(m), (depth - 1) as nat);
        }
    }
}

} // verus!
