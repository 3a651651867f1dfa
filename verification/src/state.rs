//! The capability interface a game exposes to the search engine.

use vstd::prelude::*;

verus! {

/// A two-player, perfect-information, turn-based decision process.
///
/// A value of the implementing type is one position of the game. The engine
/// only ever clones states, enumerates and applies legal actions, tests
/// terminality, and asks for a terminal reward; everything else about the
/// game stays behind this interface.
///
/// Players are identified as `0` and `1`. A terminal reward is an integer in
/// `-1 ..= 1` (win, draw, loss) from the asking player's perspective, and the
/// two players' rewards cancel ([`State::lemma_zero_sum`]).
pub trait State: Sized + Send + Sync {
    /// One move of the game; it crosses rollout worker threads.
    type Action: Send + Sync;

    /// Whether the position is well formed, i.e. could arise from legal
    /// play. All engine contracts are stated for well-formed positions.
    spec fn wf(&self) -> bool;

    /// Whether no further move is possible (win, loss, draw or full board).
    spec fn terminal_spec(&self) -> bool;

    /// The legal actions of the position, in a fixed enumeration order.
    spec fn legal_spec(&self) -> Seq<Self::Action>;

    /// The successor position reached by one legal action.
    spec fn step_spec(&self, a: Self::Action) -> Self;

    /// The terminal reward from `player`'s perspective.
    spec fn reward_spec(&self, player: int) -> int;

    /// The player whose turn it is.
    spec fn to_play_spec(&self) -> int;

    /// An upper bound on the number of moves still to be played; it shrinks
    /// with every step, so random playouts terminate.
    spec fn measure_spec(&self) -> nat;

    /// The neutral placeholder action, as a specification value.
    spec fn default_action_spec() -> Self::Action;

    /// A neutral placeholder action; it marks the root node, which no
    /// action produced.
    fn default_action() -> (r: Self::Action)
        ensures
            r == Self::default_action_spec(),
    ;

    /// An owned copy of an action.
    fn clone_action(a: &Self::Action) -> (r: Self::Action)
        ensures
            r == *a,
    ;

    /// An owned copy of the position.
    fn duplicate(&self) -> (r: Self)
        ensures
            r == *self,
    ;

    /// Whether the position is terminal.
    fn is_terminal(&self) -> (r: bool)
        requires
            self.wf(),
        ensures
            r == self.terminal_spec(),
    ;

    /// All legal actions of the position. The count is bounded so that the
    /// engine's 64-bit visit statistics cannot overflow.
    fn get_legal_actions(&self) -> (r: Vec<Self::Action>)
        requires
            self.wf(),
        ensures
            r@ == self.legal_spec(),
            r@.len() <= 0xFFFF_FFFF,
    ;

    /// The player whose turn it is.
    fn to_play(&self) -> (r: usize)
        requires
            self.wf(),
        ensures
            r == self.to_play_spec(),
            0 <= self.to_play_spec() < 2,
    ;

    /// Applies a legal action to a non-terminal position; the original
    /// position is not touched.
    fn step(&self, a: &Self::Action) -> (r: Self)
        requires
            self.wf(),
            !self.terminal_spec(),
            self.legal_spec().contains(*a),
        ensures
            r == self.step_spec(*a),
            r.wf(),
            r.measure_spec() < self.measure_spec(),
    ;

    /// The terminal reward from `player`'s perspective.
    fn reward(&self, player: usize) -> (r: i64)
        requires
            self.wf(),
            self.terminal_spec(),
            player < 2,
        ensures
            r == self.reward_spec(player as int),
            -1 <= r <= 1,
    ;

    /// A non-terminal position always offers at least one legal action.
    proof fn lemma_nonterminal_has_actions(&self)
        requires
            self.wf(),
            !self.terminal_spec(),
        ensures
            self.legal_spec().len() > 0,
    ;

    /// Zero-sum law: at a terminal position the two players' rewards cancel.
    proof fn lemma_zero_sum(&self, player: int)
        requires
            self.wf(),
            self.terminal_spec(),
            0 <= player < 2,
        ensures
            self.reward_spec(player) + self.reward_spec(1 - player) == 0,
    ;
}

/// Whether position `t` can be reached from position `s` by at most `fuel`
/// legal steps.
pub open spec fn reachable_within<S: State>(s: S, t: S, fuel: nat) -> bool
    decreases fuel,
{
    ||| s == t
    ||| (fuel > 0 && !s.terminal_spec() && exists|i: int|
        0 <= i < s.legal_spec().len() && reachable_within(
            #[trigger] s.step_spec(s.legal_spec()[i]),
            t,
            (fuel - 1) as nat,
        ))
}

/// Reachability extends along one more legal step: if `b` is reachable from
/// `a` and one legal action of `b` leads to `bp`, then `bp` is reachable
/// from `a` with one more step of fuel.
pub proof fn lemma_reachable_step<S: State>(a: S, b: S, bp: S, fuel: nat)
    requires
        reachable_within(a, b, fuel),
        !b.terminal_spec(),
        exists|i: int| 0 <= i < b.legal_spec().len() && bp == #[trigger] b.step_spec(
            b.legal_spec()[i],
        ),
    ensures
        reachable_within(a, bp, fuel + 1),
    decreases fuel,
{
    let w = choose|i: int|
        0 <= i < b.legal_spec().len() && bp == #[trigger] b.step_spec(b.legal_spec()[i]);
    if a == b {
        assert(reachable_within(a.step_spec(a.legal_spec()[w]), bp, fuel));
    } else {
        let i = choose|i: int|
            0 <= i < a.legal_spec().len() && reachable_within(
                #[trigger] a.step_spec(a.legal_spec()[i]),
                b,
                (fuel - 1) as nat,
            );
        lemma_reachable_step(a.step_spec(a.legal_spec()[i]), b, bp, (fuel - 1) as nat);
        assert(reachable_within(a.step_spec(a.legal_spec()[i]), bp, fuel));
    }
}

/// Reachability is monotone in the fuel.
pub proof fn lemma_reachable_mono<S: State>(a: S, b: S, f1: nat, f2: nat)
    requires
        reachable_within(a, b, f1),
        f1 <= f2,
    ensures
        reachable_within(a, b, f2),
    decreases f1,
{
    if a != b {
        let i = choose|i: int|
            0 <= i < a.legal_spec().len() && reachable_within(
                #[trigger] a.step_spec(a.legal_spec()[i]),
                b,
                (f1 - 1) as nat,
            );
        lemma_reachable_mono(a.step_spec(a.legal_spec()[i]), b, (f1 - 1) as nat, (f2 - 1) as nat);
        assert(reachable_within(a.step_spec(a.legal_spec()[i]), b, (f2 - 1) as nat));
    }
}

} // verus!
