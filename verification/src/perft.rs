//! Perft: the number of leaves of the tree of legal moves to a given depth,
//! the standard test of a move generator.
use vstd::prelude::*;
use vstd::set::fold::{lemma_fold_insert, lemma_fold_empty, is_fun_commutative};
use crate::types::{MoveFlag, Move, lemma_piece_index, lemma_color_index};
use crate::position::{Position, Undo, rights_after, piece_kind, made, law_undo_restores};
use crate::movegen::{Node, node_of, pseudo_at, after_at, legal_at, legal, sound, lemma_pseudo_fits, lemma_king_stays, lemma_legal_keeps_sound};
use crate::game::GameState;

verus! {

broadcast use lemma_piece_index, lemma_color_index;

/// The node reached from `n` by the move `m`.
pub open spec fn next_node(n: Node, m: Move) -> Node {
    let moved = piece_kind(n.v.mailbox[m.from as int]).unwrap();
    let cap = piece_kind(n.v.mailbox[m.to as int]);
    Node {
        v: after_at(n, m),
        c: 1 - n.c,
        ep: if m.flag == MoveFlag::DoublePawnPush {
            Some((if n.c == 0 { m.to - 8 } else { m.to + 8 }) as u8)
        } else {
            None
        },
        cr: rights_after(n.cr, m, n.c, moved, cap),
    }
}

/// The legal moves of a node.
pub open spec fn legal_set(n: Node) -> Set<Move> {
    Set::new(|m: Move| legal_at(n, m))
}

/// What the count of `n` adds up over its legal moves: for each, the count
/// of the node it leads to at `depth`.
pub open spec fn add_child(n: Node, depth: nat) -> spec_fn(nat, Move) -> nat
    decreases depth, 2int,
{
    |acc: nat, m: Move| acc + perft_count(next_node(n, m), depth)
}

/// The number of leaves of the tree of legal moves from `n` to `depth`
/// plies: 1 at depth 0, else the sum over the legal moves of the count
/// below each.
pub open spec fn perft_count(n: Node, depth: nat) -> nat
    decreases depth, 1int,
{
    if depth == 0 {
        1
    } else {
        legal_set(n).fold(0nat, add_child(n, (depth - 1) as nat))
    }
}

/// The counts below the legal moves among `s`, summed in the order of `s`.
pub open spec fn seq_count(n: Node, depth: nat, s: Seq<Move>) -> nat
    decreases s.len(),
{
    if s.len() == 0 {
        0
    } else {
        let m = s.last();
        seq_count(n, depth, s.drop_last()) + if legal_at(n, m) {
            perft_count(next_node(n, m), depth)
        } else {
            0
        }
    }
}

/// The legal moves of `n` that `s` lists.
pub open spec fn legal_in(n: Node, s: Seq<Move>) -> Set<Move> {
    Set::new(|m: Move| s.contains(m) && legal_at(n, m))
}

/// Summing over a list without repeats is folding over the set it lists.
proof fn lemma_seq_count_fold(n: Node, depth: nat, s: Seq<Move>)
    requires
        s.no_duplicates(),
    ensures
        legal_in(n, s).finite(),
        seq_count(n, depth, s) == legal_in(n, s).fold(0nat, add_child(n, depth)),
    decreases s.len(),
{
    let f = add_child(n, depth);
    assert(is_fun_commutative(f)) by {
        assert forall|a1: Move, a2: Move, b: nat| #[trigger] f(f(b, a2), a1) == f(f(b, a1), a2) by {}
    }
    if s.len() == 0 {
        assert(legal_in(n, s) =~= Set::<Move>::empty());
        lemma_fold_empty(0nat, f);
    } else {
        let t = s.drop_last();
        let m = s.last();
        assert(t.no_duplicates()) by {
            assert forall|i: int, j: int| 0 <= i < t.len() && 0 <= j < t.len() && i != j implies t[i] != t[j] by {
                assert(t[i] == s[i] && t[j] == s[j]);
            }
        }
        lemma_seq_count_fold(n, depth, t);
        let st = legal_in(n, t);
        assert(!t.contains(m)) by {
            if t.contains(m) {
                let k = choose|k: int| 0 <= k < t.len() && t[k] == m;
                assert(s[k] == s[s.len() - 1]);
            }
        }
        if legal_at(n, m) {
            assert(legal_in(n, s) =~= st.insert(m)) by {
                assert forall|x: Move| #[trigger] s.contains(x) <==> t.contains(x) || x == m by {
                    if s.contains(x) && x != m {
                        let k = choose|k: int| 0 <= k < s.len() && s[k] == x;
                        assert(t[k] == x);
                    }
                    if t.contains(x) {
                        let k = choose|k: int| 0 <= k < t.len() && t[k] == x;
                        assert(s[k] == x);
                    }
                    if x == m {
                        assert(s[s.len() - 1] == x);
                    }
                }
            }
            lemma_fold_insert(st, 0nat, f, m);
        } else {
            assert(legal_in(n, s) =~= st) by {
                assert forall|x: Move| #[trigger] s.contains(x) && legal_at(n, x) <==> t.contains(x) && legal_at(n, x) by {
                    if s.contains(x) && legal_at(n, x) {
                        let k = choose|k: int| 0 <= k < s.len() && s[k] == x;
                        assert(k != s.len() - 1);
                        assert(t[k] == x);
                    }
                    if t.contains(x) {
                        let k = choose|k: int| 0 <= k < t.len() && t[k] == x;
                        assert(s[k] == x);
                    }
                }
            }
        }
    }
}

/// Over a list of all the pseudo-legal moves, without repeats, the sum is the count.
proof fn lemma_seq_count_all(n: Node, depth: nat, s: Seq<Move>)
    requires
        s.no_duplicates(),
        forall|m: Move| #[trigger] s.contains(m) <==> pseudo_at(n, m),
    ensures
        seq_count(n, depth, s) == perft_count(n, depth + 1),
{
    lemma_seq_count_fold(n, depth, s);
    assert(legal_in(n, s) =~= legal_set(n));
    assert((depth + 1 - 1) as nat == depth);
}

/// A prefix sums to no more than the whole, and one step longer adds the next move.
proof fn lemma_seq_count_prefix(n: Node, depth: nat, s: Seq<Move>, i: int)
    requires
        0 <= i < s.len(),
    ensures
        seq_count(n, depth, s.take(i + 1)) == seq_count(n, depth, s.take(i)) + if legal_at(n, s[i]) {
            perft_count(next_node(n, s[i]), depth)
        } else {
            0
        },
        seq_count(n, depth, s.take(i + 1)) <= seq_count(n, depth, s),
    decreases s.len() - i,
{
    assert(s.take(i + 1).drop_last() =~= s.take(i));
    if i + 1 < s.len() {
        lemma_seq_count_prefix(n, depth, s, i + 1);
    } else {
        assert(s.take(i + 1) =~= s);
    }
}

/// Making a move leads to the node the move leads to.
pub proof fn lemma_node_made(p: Position, m: Move, q: Position, u: Undo)
    requires
        made(p, m, q, u),
    ensures
        node_of(q) == next_node(node_of(p), m),
{
}

/// A position with the node, the boards' agreement and the clock of a sound one is sound.
proof fn lemma_sound_node(p: Position, q: Position)
    requires
        sound(p),
        node_of(q) == node_of(p),
    ensures
        sound(q),
{
    assert(q.side_to_move == p.side_to_move);
}

impl Position {
    /// The perft count of the position to `depth`: each pseudo-legal move
    /// is made, kept when it leaves the mover's king unattacked, and taken
    /// back. The position is left as it was.
    pub fn perft_pos(&mut self, depth: u32) -> (nodes: u64)
        requires
            sound(*old(self)),
            old(self).halfmove_clock + depth <= u32::MAX,
            perft_count(node_of(*old(self)), depth as nat) <= u64::MAX,
        ensures
            nodes == perft_count(node_of(*old(self)), depth as nat),
            node_of(*final(self)) == node_of(*old(self)),
            sound(*final(self)),
            final(self).halfmove_clock == old(self).halfmove_clock,
            final(self).zobrist_keys == old(self).zobrist_keys,
            final(self).fullmove_count == old(self).fullmove_count,
        decreases depth,
    {
        if depth == 0 {
            return 1;
        }
        let ghost p0 = *self;
        let ghost n0 = node_of(p0);
        let ghost d1 = (depth - 1) as nat;
        let moves = self.get_pseudo_legal_moves();
        proof {
            lemma_seq_count_all(n0, d1, moves@);
        }
        let mut nodes: u64 = 0;
        let side_before = self.side_to_move;
        let mut i: usize = 0;
        while i < moves.len()
            invariant
                i <= moves.len(),
                depth >= 1,
                d1 == depth - 1,
                n0 == node_of(p0),
                sound(p0),
                p0.halfmove_clock + depth <= u32::MAX,
                forall|m: Move| #[trigger] moves@.contains(m) <==> pseudo_at(n0, m),
                seq_count(n0, d1, moves@) == perft_count(n0, depth as nat),
                perft_count(n0, depth as nat) <= u64::MAX,
                nodes == seq_count(n0, d1, moves@.take(i as int)),
                side_before == p0.side_to_move,
                node_of(*self) == n0,
                sound(*self),
                self.halfmove_clock == p0.halfmove_clock,
                self.zobrist_keys == p0.zobrist_keys,
                self.fullmove_count == p0.fullmove_count,
            decreases moves.len() - i,
        {
            let mv = moves[i];
            let ghost p1 = *self;
            proof {
                assert(moves@.contains(mv));
                lemma_pseudo_fits(p1, mv);
                lemma_king_stays(p1.view(), p1.side_to_move.index(), mv);
                lemma_seq_count_prefix(n0, d1, moves@, i as int);
            }
            let undo = self.make_move(mv);
            let ghost q = *self;
            proof {
                lemma_node_made(p1, mv, q, undo);
            }
            if !self.is_in_check(side_before) {
                proof {
                    assert(legal(p1, mv));
                    lemma_legal_keeps_sound(p1, mv, q, undo);
                }
                if depth == 1 {
                    nodes = nodes + 1;
                } else {
                    let below = self.perft_pos(depth - 1);
                    nodes = nodes + below;
                }
            }
            let ghost q1 = *self;
            self.undo_move(mv, undo);
            proof {
                let q2 = Position { fullmove_count: q.fullmove_count, ..q1 };
                let r2 = *self;
                law_undo_restores(p1, mv, q2, undo, r2);
                lemma_sound_node(p1, *self);
            }
            i = i + 1;
        }
        proof {
            assert(moves@.take(moves.len() as int) =~= moves@);
        }
        nodes
    }
}

/// The perft count of the game's position to `depth`. The game is left as
/// it was.
pub fn perft(gs: &mut GameState, depth: u32) -> (nodes: u64)
    requires
        sound(old(gs).position),
        old(gs).position.halfmove_clock + depth <= u32::MAX,
        perft_count(node_of(old(gs).position), depth as nat) <= u64::MAX,
    ensures
        nodes == perft_count(node_of(old(gs).position), depth as nat),
        node_of(final(gs).position) == node_of(old(gs).position),
        final(gs).position.halfmove_clock == old(gs).position.halfmove_clock,
        final(gs).position.zobrist_keys == old(gs).position.zobrist_keys,
        final(gs).position.fullmove_count == old(gs).position.fullmove_count,
        final(gs).history == old(gs).history,
        final(gs).repetition_table == old(gs).repetition_table,
        final(gs).result == old(gs).result,
        final(gs).line == old(gs).line,
{
    gs.position.perft_pos(depth)
}

} // verus!
