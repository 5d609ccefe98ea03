//! Towers of Hanoi: the classic recursive solution, returned as a move list.

use vstd::prelude::*;

verus! {

/// One of the three pegs.
#[derive(Clone, Copy, Debug, Eq, PartialEq, Structural)]
pub enum Peg {
    A,
    B,
    C,
}

/// A move between two pegs: (source, destination).
pub type Move = (Peg, Peg);

/// The move list that solves Hanoi for `num_discs` discs from `src` to `dst`
/// with `aux` as the spare peg.
pub open spec fn hanoi_spec(num_discs: nat, src: Peg, aux: Peg, dst: Peg) -> Seq<Move>
    decreases num_discs,
{
    if num_discs <= 1 {
        seq![(src, dst)]
    } else {
        hanoi_spec((num_discs - 1) as nat, src, dst, aux) + seq![(src, dst)] + hanoi_spec(
            (num_discs - 1) as nat,
            aux,
            src,
            dst,
        )
    }
}

/// Solves for the sequence of moves required to move all discs from `src` to
/// `dst`.
pub fn hanoi(num_discs: u32, src: Peg, aux: Peg, dst: Peg) -> (moves: Vec<Move>)
    requires
        num_discs >= 1,
    ensures
        moves@ == hanoi_spec(num_discs as nat, src, aux, dst),
    decreases num_discs,
{
    let mut current_moves: Vec<Move> = Vec::new();
    if num_discs == 1 {
        current_moves.push((src, dst));
        proof {
            assert(current_moves@ =~= hanoi_spec(num_discs as nat, src, aux, dst));
        }
        return current_moves;
    }
    let mut first = hanoi(num_discs - 1, src, dst, aux);
    current_moves.append(&mut first);
    current_moves.push((src, dst));
    let mut second = hanoi(num_discs - 1, aux, src, dst);
    current_moves.append(&mut second);
    proof {
        assert(current_moves@ =~= hanoi_spec(num_discs as nat, src, aux, dst));
    }
    current_moves
}

} // verus!
