use vstd::prelude::*;
use vstd::relations::injective_on;
use vstd::set_lib::{lemma_int_range, lemma_map_size, set_int_range};

use crate::player::{attack_pair, split_pair, Hand, Player};
use crate::radix::{
    compose, digits, digits_below, lemma_compose_bound, lemma_power_mono, lemma_power_positive,
    power,
};
use crate::radix::{lemma_compose_digits, lemma_digits_compose};
use crate::triangle::{
    decode_pair, encode_pair, lemma_pair_count_positive, lemma_player_encode_decode, pair_count,
};

verus! {

broadcast use vstd::array::group_array_axioms;

/// A move of the player whose turn it is.
#[derive(Clone, Copy, Debug)]
pub enum Action {
    /// Striking hand, index of the struck player, struck hand.
    ATTACK(Hand, usize, Hand),
    /// Hand the fingers leave, and how many move to the other hand.
    SPLIT(Hand, usize),
}

/// Number of ways to fill all `count` players' hands.
pub open spec fn total_player_max(max: int, count: nat) -> int {
    power(pair_count(max), count)
}

/// Number of compact state codes.
pub open spec fn state_max(max: int, count: nat) -> int {
    total_player_max(max, count) * count
}

/// A decoded state: one player code per player, and whose turn it is.
pub open spec fn state_ok(max: int, count: nat, s: (Seq<int>, int)) -> bool {
    &&& s.0.len() == count
    &&& digits_below(pair_count(max), s.0)
    &&& 0 <= s.1 < count
}

/// The compact code of a decoded state.
pub open spec fn state_code(max: int, count: nat, s: (Seq<int>, int)) -> int {
    compose(pair_count(max), s.0) + total_player_max(max, count) * s.1
}

/// The decoded state that a compact code stands for.
pub open spec fn decode_state(max: int, count: nat, code: int) -> (Seq<int>, int) {
    let t = total_player_max(max, count);
    (digits(pair_count(max), code % t, count), code / t)
}

/// The state after a legal action; `None` when the action is refused.
pub open spec fn step(max: int, count: nat, s: (Seq<int>, int), action: Action) -> Option<
    (Seq<int>, int),
> {
    let codes = s.0;
    let turn = s.1;
    let next = (turn + 1) % (count as int);
    match action {
        Action::ATTACK(ah, idx, dh) => {
            if idx != turn && idx < count {
                match attack_pair(
                    decode_pair(max, codes[turn]),
                    ah,
                    decode_pair(max, codes[idx as int]),
                    dh,
                ) {
                    Some(p) => Some((codes.update(idx as int, encode_pair(max, p)), next)),
                    None => None,
                }
            } else {
                None
            }
        },
        Action::SPLIT(h, amount) => {
            match split_pair(decode_pair(max, codes[turn]), h, amount as int) {
                Some(p) => Some((codes.update(turn, encode_pair(max, p)), next)),
                None => None,
            }
        },
    }
}

/// The state after an action: its successor, or the state itself when the
/// action is refused.
pub open spec fn apply(max: int, count: nat, s: (Seq<int>, int), action: Action) -> (
    Seq<int>,
    int,
) {
    match step(max, count, s, action) {
        Some(n) => n,
        None => s,
    }
}

/// Every player at one finger on each hand, player 0 to move.
pub open spec fn opening(max: int, count: nat) -> (Seq<int>, int) {
    (Seq::new(count, |i: int| encode_pair(max, (1, 1))), 0)
}

/// Decoding a code in `[0, state_max)` gives a valid state, and encoding that
/// state gives the code back.
pub proof fn lemma_state_round_trip(max: int, count: nat, code: int)
    requires
        1 <= max,
        1 <= count,
        0 <= code < state_max(max, count),
    ensures
        state_ok(max, count, decode_state(max, count, code)),
        state_code(max, count, decode_state(max, count, code)) == code,
{
    let pc = pair_count(max);
    let t = total_player_max(max, count);
    lemma_pair_count_positive(max);
    lemma_power_positive(pc, count);
    vstd::arithmetic::div_mod::lemma_fundamental_div_mod(code, t);
    let (q, m) = (code / t, code % t);
    assert(q < count && 0 <= q) by (nonlinear_arith)
        requires
            code == t * q + m,
            0 <= m < t,
            0 <= code < t * count,
    ;
    lemma_compose_digits(pc, m, count);
}

/// Encoding a valid state and decoding the code gives the state back, so
/// distinct states have distinct codes, all in `[0, state_max)`.
pub proof fn lemma_state_encode_decode(max: int, count: nat, s: (Seq<int>, int))
    requires
        1 <= max,
        state_ok(max, count, s),
    ensures
        0 <= state_code(max, count, s) < state_max(max, count),
        decode_state(max, count, state_code(max, count, s)) == s,
{
    let pc = pair_count(max);
    let t = total_player_max(max, count);
    lemma_pair_count_positive(max);
    lemma_compose_bound(pc, s.0);
    let c = compose(pc, s.0);
    let code = state_code(max, count, s);
    assert(0 <= code < t * count) by (nonlinear_arith)
        requires
            code == c + t * s.1,
            0 <= c < t,
            0 <= s.1 < count,
    ;
    vstd::arithmetic::div_mod::lemma_fundamental_div_mod_converse(code, t, s.1, c);
    lemma_digits_compose(pc, s.0);
}

/// An action keeps a state valid.
pub proof fn lemma_apply_ok(max: int, count: nat, s: (Seq<int>, int), action: Action)
    requires
        1 <= max,
        state_ok(max, count, s),
    ensures
        state_ok(max, count, apply(max, count, s, action)),
{
    let pc = pair_count(max);
    match step(max, count, s, action) {
        Some(n) => {
            let turn = s.1;
            let (i, p) = match action {
                Action::ATTACK(ah, idx, dh) => (
                    idx as int,
                    attack_pair(decode_pair(max, s.0[turn]), ah, decode_pair(max, s.0[idx as int]), dh).unwrap(),
                ),
                Action::SPLIT(h, amount) => (
                    turn,
                    split_pair(decode_pair(max, s.0[turn]), h, amount as int).unwrap(),
                ),
            };
            lemma_player_encode_decode(max, p);
            assert(n.0 == s.0.update(i, encode_pair(max, p)));
            assert forall|j: int| 0 <= j < n.0.len() implies 0 <= #[trigger] n.0[j] < pc by {
                if j != i {
                    assert(n.0[j] == s.0[j]);
                }
            }
        },
        None => {},
    }
}

/// A legal action passes the turn to the next player, modulo the number of
/// players; a refused one leaves the code, and so the turn, unchanged.
pub proof fn lemma_turn_rotation(max: int, count: nat, code: int, action: Action)
    requires
        1 <= max,
        1 <= count,
        0 <= code < state_max(max, count),
    ensures
        ({
            let s = decode_state(max, count, code);
            let next = state_code(max, count, apply(max, count, s, action));
            &&& step(max, count, s, action).is_some() ==> decode_state(max, count, next).1 == (s.1
                + 1) % (count as int)
            &&& step(max, count, s, action).is_none() ==> next == code
                && decode_state(max, count, next).1 == s.1
        }),
{
    let s = decode_state(max, count, code);
    lemma_state_round_trip(max, count, code);
    lemma_apply_ok(max, count, s, action);
    lemma_state_encode_decode(max, count, apply(max, count, s, action));
}

/// The valid decoded states.
pub open spec fn valid_states(max: int, count: nat) -> Set<(Seq<int>, int)> {
    Set::new(|s: (Seq<int>, int)| state_ok(max, count, s))
}

/// There are exactly `state_max` valid states, and the codes
/// `[0, state_max)` number them one to one.
pub proof fn lemma_state_max_enumerates(max: int, count: nat)
    requires
        1 <= max,
        1 <= count,
    ensures
        valid_states(max, count).finite(),
        valid_states(max, count).len() == state_max(max, count),
        set_int_range(0, state_max(max, count)).map(|c: int| decode_state(max, count, c))
            == valid_states(max, count),
{
    let sm = state_max(max, count);
    let codes = set_int_range(0, sm);
    let f = |c: int| decode_state(max, count, c);
    lemma_pair_count_positive(max);
    lemma_power_positive(pair_count(max), count);
    assert(0 <= sm) by (nonlinear_arith)
        requires
            sm == total_player_max(max, count) * count,
            1 <= total_player_max(max, count),
    ;
    lemma_int_range(0, sm);
    assert(injective_on(f, codes)) by {
        assert forall|c1: int, c2: int|
            codes.contains(c1) && codes.contains(c2) && #[trigger] f(c1) == #[trigger] f(c2)
            implies c1 == c2 by {
            lemma_state_round_trip(max, count, c1);
            lemma_state_round_trip(max, count, c2);
        }
    }
    assert(codes.map(f) =~= valid_states(max, count)) by {
        assert forall|s: (Seq<int>, int)| valid_states(max, count).contains(s) implies codes.map(
            f,
        ).contains(s) by {
            lemma_state_encode_decode(max, count, s);
            let c = state_code(max, count, s);
            assert(codes.contains(c) && f(c) == s);
        }
        assert forall|s: (Seq<int>, int)| codes.map(f).contains(s) implies valid_states(
            max,
            count,
        ).contains(s) by {
            let c = choose|c: int| codes.contains(c) && f(c) == s;
            lemma_state_round_trip(max, count, c);
        }
    }
    lemma_map_size(codes, valid_states(max, count), f);
}

/// A game state with each player's hands as their player code.
#[derive(Clone, Copy, Debug)]
pub struct StateD<const COUNT: usize, const MAX: usize> {
    pub players: [Player<MAX>; COUNT],
    pub turn: usize,
}

impl<const COUNT: usize, const MAX: usize> View for StateD<COUNT, MAX> {
    type V = (Seq<int>, int);

    open spec fn view(&self) -> (Seq<int>, int) {
        (self.players@.map_values(|p: Player<MAX>| p.val as int), self.turn as int)
    }
}

/// The opening position.
impl<const COUNT: usize, const MAX: usize> Default for StateD<COUNT, MAX> {
    fn default() -> (r: Self)
        ensures
            MAX >= 1 ==> r@ == opening(MAX as int, COUNT as nat),
            MAX >= 1 && COUNT >= 1 ==> r.wf(),
    {
        let p = Player::<MAX>::default();
        let players = [p;COUNT];
        proof {
            if MAX >= 1 {
                assert(players@.map_values(|p: Player<MAX>| p.val as int) =~= opening(
                    MAX as int,
                    COUNT as nat,
                ).0);
            }
        }
        StateD { players, turn: 0 }
    }
}

impl<const COUNT: usize, const MAX: usize> StateD<COUNT, MAX> {
    /// Every player code is valid and the turn names a player.
    pub open spec fn wf(self) -> bool {
        state_ok(MAX as int, COUNT as nat, self@)
    }

    /// Applies `action` for the player whose turn it is. A refused action
    /// leaves the state as it was, turn included.
    pub fn action(self, action: Action) -> (r: StateD<COUNT, MAX>)
        requires
            State::<COUNT, MAX>::params_ok(),
            self.wf(),
        ensures
            r.wf(),
            r@ == apply(MAX as int, COUNT as nat, self@, action),
    {
        proof {
            State::<COUNT, MAX>::lemma_params();
        }
        let mut s = self;
        assert(s.players[s.turn as int].val == s@.0[s.turn as int]);
        match action {
            Action::ATTACK(attacking_hand, other_player_idx, other_hand) => {
                if other_player_idx != s.turn && other_player_idx < COUNT {
                    let player = s.players[s.turn];
                    let other_player = s.players[other_player_idx];
                    assert(other_player.val == s@.0[other_player_idx as int]);
                    if let Some(new_other_player) = player.attack(
                        attacking_hand,
                        other_player,
                        other_hand,
                    ) {
                        s.players[other_player_idx] = new_other_player;
                        s.turn = (s.turn + 1) % COUNT;
                        assert(s@.0 =~= self@.0.update(
                            other_player_idx as int,
                            new_other_player.val as int,
                        ));
                    }
                }
            },
            Action::SPLIT(hand, amount) => {
                let player = s.players[s.turn];
                if let Some(new_player) = player.split(hand, amount) {
                    s.players[s.turn] = new_player;
                    assert(s@.0 =~= self@.0.update(self.turn as int, new_player.val as int));
                    s.turn = (s.turn + 1) % COUNT;
                }
            },
        }
        s
    }
}

/// A whole game state as one dense code in `[0, state_max)`.
#[derive(Clone, Copy, Debug)]
pub struct State<const COUNT: usize, const MAX: usize> {
    pub val: usize,
}

impl<const COUNT: usize, const MAX: usize> State<COUNT, MAX> {
    /// At least one player, at least one finger value, and every state code
    /// fits in a `usize`.
    pub open spec fn params_ok() -> bool {
        &&& 1 <= MAX
        &&& 1 <= COUNT
        &&& state_max(MAX as int, COUNT as nat) <= usize::MAX
    }

    /// The code numbers some state.
    pub open spec fn wf(self) -> bool {
        self.val < state_max(MAX as int, COUNT as nat)
    }

    proof fn lemma_params()
        requires
            Self::params_ok(),
        ensures
            Player::<MAX>::params_ok(),
            1 <= pair_count(MAX as int) <= total_player_max(MAX as int, COUNT as nat),
            total_player_max(MAX as int, COUNT as nat) <= state_max(MAX as int, COUNT as nat),
    {
        let m = MAX as int;
        let pc = pair_count(m);
        lemma_pair_count_positive(m);
        lemma_power_mono(pc, 1, COUNT as nat);
        assert(power(pc, 1) == pc * power(pc, 0));
        let t = total_player_max(m, COUNT as nat);
        lemma_power_positive(pc, COUNT as nat);
        assert(t <= t * COUNT) by (nonlinear_arith)
            requires
                1 <= t,
                1 <= COUNT,
        ;
    }

    fn total_player_max_val() -> (r: usize)
        requires
            Self::params_ok(),
        ensures
            r == total_player_max(MAX as int, COUNT as nat),
    {
        proof {
            Self::lemma_params();
        }
        let pm = Player::<MAX>::max_player_val();
        let ghost pc = pair_count(MAX as int);
        let mut r: usize = 1;
        let mut i: usize = 0;
        while i < COUNT
            invariant
                Self::params_ok(),
                1 <= pc,
                pc == pair_count(MAX as int),
                pm == pc,
                i <= COUNT,
                r == power(pc, i as nat),
                total_player_max(MAX as int, COUNT as nat) <= usize::MAX,
            decreases COUNT - i,
        {
            proof {
                lemma_power_mono(pc, (i + 1) as nat, COUNT as nat);
                assert(power(pc, (i + 1) as nat) == pc * power(pc, i as nat));
                assert(r * pm == pm * r) by (nonlinear_arith);
                assert(r * pm == power(pc, (i + 1) as nat));
            }
            r = r * pm;
            i = i + 1;
        }
        r
    }

    /// Number of state codes, `max_player_val^COUNT * COUNT`.
    pub fn max_state_val() -> (r: usize)
        requires
            Self::params_ok(),
        ensures
            r == state_max(MAX as int, COUNT as nat),
    {
        let t = Self::total_player_max_val();
        t * COUNT
    }

    /// Composes the player codes, most significant first, and the turn.
    pub fn construct(state: StateD<COUNT, MAX>) -> (r: State<COUNT, MAX>)
        requires
            Self::params_ok(),
            state.wf(),
        ensures
            r.wf(),
            r.val == state_code(MAX as int, COUNT as nat, state@),
    {
        proof {
            Self::lemma_params();
        }
        let pm = Player::<MAX>::max_player_val();
        let tpm = Self::total_player_max_val();
        let ghost pc = pair_count(MAX as int);
        let ghost codes = state@.0;
        let mut val: usize = 0;
        let mut i: usize = 0;
        while i < COUNT
            invariant
                Self::params_ok(),
                state.wf(),
                codes == state@.0,
                1 <= pc,
                pc == pair_count(MAX as int),
                pm == pc,
                tpm == total_player_max(MAX as int, COUNT as nat),
                tpm <= usize::MAX,
                i <= COUNT,
                val == compose(pc, codes.subrange(0, i as int)),
            decreases COUNT - i,
        {
            proof {
                let nxt = codes.subrange(0, i + 1);
                assert(nxt.drop_last() =~= codes.subrange(0, i as int));
                assert(digits_below(pc, codes));
                assert(digits_below(pc, nxt)) by {
                    assert forall|j: int| 0 <= j < nxt.len() implies 0 <= #[trigger] nxt[j] < pc by {
                        assert(nxt[j] == codes[j]);
                    }
                }
                lemma_compose_bound(pc, nxt);
                lemma_power_mono(pc, (i + 1) as nat, COUNT as nat);
                assert(state.players[i as int].val == codes[i as int]);
                assert(compose(pc, nxt) == val * pc + codes[i as int]);
            }
            val = val * pm + state.players[i].val;
            i = i + 1;
        }
        proof {
            assert(codes.subrange(0, COUNT as int) =~= codes);
            lemma_compose_bound(pc, codes);
            let t = state.turn as int;
            assert(val + tpm * t < tpm * COUNT) by (nonlinear_arith)
                requires
                    0 <= val < tpm,
                    0 <= t < COUNT,
            ;
            assert(0 <= tpm * t) by (nonlinear_arith)
                requires
                    0 <= tpm,
                    0 <= t,
            ;
        }
        State { val: val + tpm * state.turn }
    }

    /// Splits the code into the turn and the player codes.
    pub fn deconstruct(self) -> (r: StateD<COUNT, MAX>)
        requires
            Self::params_ok(),
            self.wf(),
        ensures
            r.wf(),
            r@ == decode_state(MAX as int, COUNT as nat, self.val as int),
    {
        proof {
            Self::lemma_params();
        }
        let pm = Player::<MAX>::max_player_val();
        let tpm = Self::total_player_max_val();
        let ghost pc = pair_count(MAX as int);
        let ghost whole: int = (self.val % tpm) as int;
        let turn = self.val / tpm;
        proof {
            vstd::arithmetic::div_mod::lemma_fundamental_div_mod(self.val as int, tpm as int);
            let (v, t, q, m) = (self.val as int, tpm as int, turn as int, whole);
            assert(q < COUNT) by (nonlinear_arith)
                requires
                    v == t * q + m,
                    0 <= m,
                    1 <= t,
                    v < t * COUNT,
            ;
        }
        let mut rest = self.val % tpm;
        let mut players = [Player::<MAX> { val: 0 };COUNT];
        let mut i: usize = COUNT;
        while i > 0
            invariant
                Self::params_ok(),
                1 <= pc,
                pc == pair_count(MAX as int),
                pm == pc,
                i <= COUNT,
                digits(pc, whole, COUNT as nat) == digits(pc, rest as int, i as nat) + players@.map_values(
                    |p: Player<MAX>| p.val as int,
                ).subrange(i as int, COUNT as int),
                forall|j: int| 0 <= j < COUNT ==> #[trigger] players[j].val < pc,
            decreases i,
        {
            i = i - 1;
            let ghost before = players@.map_values(|p: Player<MAX>| p.val as int);
            players[i] = Player { val: rest % pm };
            proof {
                let after = players@.map_values(|p: Player<MAX>| p.val as int);
                assert(after.subrange(i as int, COUNT as int) =~= seq![(rest % pm) as int]
                    + before.subrange(i + 1, COUNT as int));
                assert(digits(pc, rest as int, (i + 1) as nat) == digits(
                    pc,
                    (rest / pm) as int,
                    i as nat,
                ).push((rest % pm) as int));
                assert(digits(pc, (rest / pm) as int, i as nat) + after.subrange(i as int, COUNT as int)
                    =~= digits(pc, rest as int, (i + 1) as nat) + before.subrange(
                    i + 1,
                    COUNT as int,
                ));
            }
            rest = rest / pm;
        }
        let r = StateD { players, turn };
        proof {
            assert(digits(pc, rest as int, 0) =~= Seq::<int>::empty());
            assert(r@.0 =~= digits(pc, whole, COUNT as nat));
            assert(digits_below(pc, r@.0)) by {
                assert forall|j: int| 0 <= j < r@.0.len() implies 0 <= #[trigger] r@.0[j] < pc by {
                    assert(r@.0[j] == players[j].val);
                }
            }
        }
        r
    }

    /// Applies `action` to the state that the code stands for and returns the
    /// code of the result; a refused action returns the same code.
    pub fn action(self, action: Action) -> (r: State<COUNT, MAX>)
        requires
            Self::params_ok(),
            self.wf(),
        ensures
            r.wf(),
            r.val == state_code(
                MAX as int,
                COUNT as nat,
                apply(MAX as int, COUNT as nat, decode_state(MAX as int, COUNT as nat, self.val as int), action),
            ),
            step(MAX as int, COUNT as nat, decode_state(MAX as int, COUNT as nat, self.val as int), action).is_none()
                ==> r.val == self.val,
            step(MAX as int, COUNT as nat, decode_state(MAX as int, COUNT as nat, self.val as int), action).is_some()
                ==> decode_state(MAX as int, COUNT as nat, r.val as int).1 == (decode_state(
                MAX as int,
                COUNT as nat,
                self.val as int,
            ).1 + 1) % (COUNT as int),
    {
        proof {
            lemma_turn_rotation(MAX as int, COUNT as nat, self.val as int, action);
        }
        let state_deconst = self.deconstruct();
        let new_state_deconst = state_deconst.action(action);
        Self::construct(new_state_deconst)
    }

    /// The code of the opening position.
    pub fn default() -> (r: State<COUNT, MAX>)
        requires
            Self::params_ok(),
        ensures
            r.wf(),
            r.val == state_code(MAX as int, COUNT as nat, opening(MAX as int, COUNT as nat)),
    {
        Self::construct(StateD::default())
    }
}

} // verus!
