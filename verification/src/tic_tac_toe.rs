//! Tic-tac-toe: a small two-player game that exercises the whole engine.

use vstd::prelude::*;
use crate::state::State;

verus! {

/// A 3×3 tic-tac-toe position. Cell `(i, j)` is bit `3·i + j` of each mask.
#[derive(Clone, Copy, Debug)]
pub struct TicTacToe {
    /// Cells marked by player 0 (`X`).
    pub xs: u16,
    /// Cells marked by player 1 (`O`).
    pub os: u16,
    /// The player whose turn it is.
    pub current_player: usize,
}

/// Whether a mark mask covers one of the eight winning lines
/// (three rows, three columns, two diagonals).
pub open spec fn line_won(m: u16) -> bool {
    ||| m & 0b000_000_111 == 0b000_000_111
    ||| m & 0b000_111_000 == 0b000_111_000
    ||| m & 0b111_000_000 == 0b111_000_000
    ||| m & 0b001_001_001 == 0b001_001_001
    ||| m & 0b010_010_010 == 0b010_010_010
    ||| m & 0b100_100_100 == 0b100_100_100
    ||| m & 0b100_010_001 == 0b100_010_001
    ||| m & 0b001_010_100 == 0b001_010_100
}

/// The legal actions whose cell index is at least `k`, in cell order.
pub open spec fn legal_from(s: TicTacToe, k: int) -> Seq<(usize, usize)>
    decreases 9 - k,
{
    if k < 0 || k >= 9 {
        Seq::empty()
    } else {
        let rest = legal_from(s, k + 1);
        if s.cell_free_spec(k) {
            seq![(((k / 3) as usize), ((k % 3) as usize))] + rest
        } else {
            rest
        }
    }
}

impl TicTacToe {
    /// The mark mask of a player.
    pub open spec fn mask_of(self, player: int) -> u16 {
        if player == 0 {
            self.xs
        } else {
            self.os
        }
    }

    /// Whether a player has completed a line.
    pub open spec fn has_won_spec(self, player: int) -> bool {
        line_won(self.mask_of(player))
    }

    /// Whether cell `k` carries no mark.
    pub open spec fn cell_free_spec(self, k: int) -> bool {
        ((self.xs | self.os) >> (k as u16)) & 1 == 0
    }

    /// Whether every cell carries a mark.
    pub open spec fn board_full_spec(self) -> bool {
        (self.xs | self.os) == 0x1FF
    }

    /// The empty board, player 0 to move.
    pub fn new() -> (r: TicTacToe)
        ensures
            r.xs == 0 && r.os == 0 && r.current_player == 0,
            r.wf(),
            !r.terminal_spec(),
    {
        let r = TicTacToe { xs: 0, os: 0, current_player: 0 };
        proof {
            assert(0u16 & 0u16 == 0 && (0u16 | 0u16) != 0x1FF && !line_won(0u16)) by (bit_vector);
        }
        r
    }

    /// Whether `player` has completed a line.
    pub fn player_has_won(&self, player: usize) -> (r: bool)
        requires
            player < 2,
        ensures
            r == self.has_won_spec(player as int),
    {
        let m: u16 = if player == 0 {
            self.xs
        } else {
            self.os
        };
        (m & 0b000_000_111) == 0b000_000_111 || (m & 0b000_111_000) == 0b000_111_000
            || (m & 0b111_000_000) == 0b111_000_000 || (m & 0b001_001_001) == 0b001_001_001
            || (m & 0b010_010_010) == 0b010_010_010 || (m & 0b100_100_100) == 0b100_100_100
            || (m & 0b100_010_001) == 0b100_010_001 || (m & 0b001_010_100) == 0b001_010_100
    }

    /// The cell marks as characters, row by row: `X`, `O` or a space.
    pub fn render_cells(&self) -> (r: Vec<char>)
        ensures
            r@.len() == 9,
            forall|k: int|
                0 <= k < 9 ==> r@[k] == (if (self.xs >> (k as u16)) & 1 == 1 {
                    'X'
                } else if (self.os >> (k as u16)) & 1 == 1 {
                    'O'
                } else {
                    ' '
                }),
    {
        let mut r: Vec<char> = Vec::new();
        let mut k: u16 = 0;
        while k < 9
            invariant
                k <= 9,
                r@.len() == k,
                forall|j: int|
                    0 <= j < k ==> r@[j] == (if (self.xs >> (j as u16)) & 1 == 1 {
                        'X'
                    } else if (self.os >> (j as u16)) & 1 == 1 {
                        'O'
                    } else {
                        ' '
                    }),
            decreases 9 - k,
        {
            let c: char = if (self.xs >> k) & 1 == 1 {
                'X'
            } else if (self.os >> k) & 1 == 1 {
                'O'
            } else {
                ' '
            };
            r.push(c);
            k = k + 1;
        }
        r
    }
}

/// Every listed action names a free cell in range, and its cell index is at
/// least `k`.
proof fn lemma_legal_from_elem(s: TicTacToe, k: int, a: (usize, usize))
    requires
        0 <= k,
        legal_from(s, k).contains(a),
    ensures
        a.0 < 3,
        a.1 < 3,
        k <= 3 * a.0 + a.1 < 9,
        s.cell_free_spec(3 * a.0 + a.1),
    decreases 9 - k,
{
    assert(k < 9);
    let rest = legal_from(s, k + 1);
    if s.cell_free_spec(k) {
        let head = (((k / 3) as usize), ((k % 3) as usize));
        if a == head {
            assert(0 <= k / 3 < 3 && 0 <= k % 3 < 3 && 3 * (k / 3) + k % 3 == k) by (nonlinear_arith)
                requires
                    0 <= k < 9,
            ;
        } else {
            let i = choose|i: int| 0 <= i < legal_from(s, k).len() && legal_from(s, k)[i] == a;
            assert(i > 0);
            assert(rest[i - 1] == a);
            assert(rest.contains(a));
            lemma_legal_from_elem(s, k + 1, a);
        }
    } else {
        lemma_legal_from_elem(s, k + 1, a);
    }
}

/// A free cell with index at least `k` puts its action on the list.
proof fn lemma_legal_from_free_cell(s: TicTacToe, k: int, c: int)
    requires
        0 <= k <= c < 9,
        s.cell_free_spec(c),
    ensures
        legal_from(s, k).contains((((c / 3) as usize), ((c % 3) as usize))),
    decreases c - k,
{
    let rest = legal_from(s, k + 1);
    if k == c {
        let head = (((k / 3) as usize), ((k % 3) as usize));
        assert(legal_from(s, k)[0] == head);
    } else {
        lemma_legal_from_free_cell(s, k + 1, c);
        let a = (((c / 3) as usize), ((c % 3) as usize));
        let i = choose|i: int| 0 <= i < rest.len() && rest[i] == a;
        if s.cell_free_spec(k) {
            assert(legal_from(s, k)[i + 1] == a);
        } else {
            assert(legal_from(s, k) == rest);
        }
    }
}

impl State for TicTacToe {
    type Action = (usize, usize);

    open spec fn wf(&self) -> bool {
        &&& self.xs < 512
        &&& self.os < 512
        &&& self.xs & self.os == 0
        &&& self.current_player < 2
        &&& !(line_won(self.xs) && line_won(self.os))
    }

    open spec fn terminal_spec(&self) -> bool {
        line_won(self.xs) || line_won(self.os) || self.board_full_spec()
    }

    open spec fn legal_spec(&self) -> Seq<(usize, usize)> {
        legal_from(*self, 0)
    }

    open spec fn step_spec(&self, a: (usize, usize)) -> TicTacToe {
        let m = 1u16 << ((3 * a.0 + a.1) as u16);
        TicTacToe {
            xs: if self.current_player == 0 {
                self.xs | m
            } else {
                self.xs
            },
            os: if self.current_player == 1 {
                self.os | m
            } else {
                self.os
            },
            current_player: (1 - self.current_player as int) as usize,
        }
    }

    open spec fn reward_spec(&self, player: int) -> int {
        if self.has_won_spec(player) {
            1
        } else if self.has_won_spec(1 - player) {
            -1
        } else {
            0
        }
    }

    open spec fn to_play_spec(&self) -> int {
        self.current_player as int
    }

    open spec fn measure_spec(&self) -> nat {
        (2048 - self.xs - self.os) as nat
    }

    open spec fn default_action_spec() -> (usize, usize) {
        (0, 0)
    }

    fn default_action() -> (usize, usize) {
        (0, 0)
    }

    fn clone_action(a: &(usize, usize)) -> (usize, usize) {
        *a
    }

    fn duplicate(&self) -> TicTacToe {
        *self
    }

    fn is_terminal(&self) -> (r: bool) {
        self.player_has_won(0) || self.player_has_won(1) || (self.xs | self.os) == 0x1FF
    }

    fn get_legal_actions(&self) -> (r: Vec<(usize, usize)>) {
        let mut r: Vec<(usize, usize)> = Vec::new();
        let mut k: u16 = 0;
        while k < 9
            invariant
                k <= 9,
                r@.len() <= k,
                legal_from(*self, 0) == r@ + legal_from(*self, k as int),
            decreases 9 - k,
        {
            let free = ((self.xs | self.os) >> k) & 1 == 0;
            proof {
                assert(legal_from(*self, k as int) == (if self.cell_free_spec(k as int) {
                    seq![((((k as int) / 3) as usize), (((k as int) % 3) as usize))]
                } else {
                    Seq::empty()
                }) + legal_from(*self, k as int + 1));
            }
            if free {
                let a = ((k / 3) as usize, (k % 3) as usize);
                proof {
                    assert((k / 3) as usize == (((k as int) / 3) as usize) && (k % 3) as usize == (
                    ((k as int) % 3) as usize));
                }
                r.push(a);
                proof {
                    assert(r@ + legal_from(*self, k as int + 1) =~= legal_from(*self, 0));
                }
            } else {
                proof {
                    assert(r@ + legal_from(*self, k as int + 1) =~= legal_from(*self, 0));
                }
            }
            k = k + 1;
        }
        proof {
            assert(r@ + legal_from(*self, 9) =~= r@);
        }
        r
    }

    fn to_play(&self) -> (r: usize) {
        self.current_player
    }

    fn step(&self, a: &(usize, usize)) -> (r: TicTacToe) {
        proof {
            lemma_legal_from_elem(*self, 0, *a);
        }
        let k: u16 = (3 * a.0 + a.1) as u16;
        let m: u16 = 1u16 << k;
        let xs = self.xs;
        let os = self.os;
        let r = if self.current_player == 0 {
            TicTacToe { xs: xs | m, os, current_player: 1 }
        } else {
            TicTacToe { xs, os: os | m, current_player: 0 }
        };
        proof {
            assert((xs | m) < 512 && (os | m) < 512 && ((xs | m) & os) == 0 && (xs & (os | m)) == 0
                && (xs | m) == xs + m && (os | m) == os + m && m >= 1) by (bit_vector)
                requires
                    xs < 512,
                    os < 512,
                    xs & os == 0,
                    ((xs | os) >> k) & 1 == 0,
                    k < 9,
                    m == 1u16 << k,
            ;
        }
        r
    }

    fn reward(&self, player: usize) -> (r: i64) {
        if self.player_has_won(player) {
            1
        } else if self.player_has_won(1 - player) {
            -1
        } else {
            0
        }
    }

    proof fn lemma_nonterminal_has_actions(&self) {
        let xs = self.xs;
        let os = self.os;
        let m = xs | os;
        assert((m >> 0) & 1 == 0 || (m >> 1) & 1 == 0 || (m >> 2) & 1 == 0 || (m >> 3) & 1 == 0 || (
        m >> 4) & 1 == 0 || (m >> 5) & 1 == 0 || (m >> 6) & 1 == 0 || (m >> 7) & 1 == 0 || (m >> 8)
            & 1 == 0) by (bit_vector)
            requires
                xs < 512 && os < 512 && m == (xs | os) && m != 0x1FF,
        ;
        if (m >> 0) & 1 == 0 {
            lemma_legal_from_free_cell(*self, 0, 0);
        } else if (m >> 1) & 1 == 0 {
            lemma_legal_from_free_cell(*self, 0, 1);
        } else if (m >> 2) & 1 == 0 {
            lemma_legal_from_free_cell(*self, 0, 2);
        } else if (m >> 3) & 1 == 0 {
            lemma_legal_from_free_cell(*self, 0, 3);
        } else if (m >> 4) & 1 == 0 {
            lemma_legal_from_free_cell(*self, 0, 4);
        } else if (m >> 5) & 1 == 0 {
            lemma_legal_from_free_cell(*self, 0, 5);
        } else if (m >> 6) & 1 == 0 {
            lemma_legal_from_free_cell(*self, 0, 6);
        } else if (m >> 7) & 1 == 0 {
            lemma_legal_from_free_cell(*self, 0, 7);
        } else {
            lemma_legal_from_free_cell(*self, 0, 8);
        }
    }

    proof fn lemma_zero_sum(&self, player: int) {
        assert(1 - (1 - player) == player);
    }
}

} // verus!

