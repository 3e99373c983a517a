use vstd::prelude::*;

use crate::triangle::{
    canonical, decode_pair, encode_pair, lemma_decode_pair, lemma_normalize_canonical,
    lemma_pair_code_bound, lemma_row_start_closed, lemma_row_start_mono, lemma_row_start_total,
    normalize, pair_code, pair_count, row_start,
};

verus! {

/// One of a player's two hands.
#[derive(PartialEq, Eq, Structural, Clone, Copy, Debug)]
pub enum Hand {
    LEFT,
    RIGHT,
}

/// The count that pair `p` holds on hand `h`.
pub open spec fn count_of(p: (int, int), h: Hand) -> int {
    match h {
        Hand::LEFT => p.0,
        Hand::RIGHT => p.1,
    }
}

/// Hand `dh` of `def` is struck by hand `ah` of `att`: a hand with no finger
/// cannot be struck, any other gains the striking hand's count.
pub open spec fn attack_pair(att: (int, int), ah: Hand, def: (int, int), dh: Hand) -> Option<(int, int)> {
    let amount = count_of(att, ah);
    if count_of(def, dh) == 0 {
        None
    } else {
        match dh {
            Hand::LEFT => Some((def.0 + amount, def.1)),
            Hand::RIGHT => Some((def.0, def.1 + amount)),
        }
    }
}

/// `amount` fingers move from hand `h` of `p` to the other hand. Refused when
/// the hand holds fewer, or when both hands would then hold the same count.
pub open spec fn split_pair(p: (int, int), h: Hand, amount: int) -> Option<(int, int)> {
    let moved = match h {
        Hand::LEFT => (p.0 - amount, p.1 + amount),
        Hand::RIGHT => (p.0 + amount, p.1 - amount),
    };
    if amount > count_of(p, h) || moved.0 == moved.1 {
        None
    } else {
        Some(moved)
    }
}

/// A player's two counts, as they stand before normalization.
#[derive(Debug)]
pub struct PlayerD<const MAX: usize> {
    pub left: usize,
    pub right: usize,
}

impl<const MAX: usize> View for PlayerD<MAX> {
    type V = (int, int);

    open spec fn view(&self) -> (int, int) {
        (self.left as int, self.right as int)
    }
}

/// A player's two hands as one dense code in `[0, MAX * (MAX + 1) / 2)`.
#[derive(Clone, Copy, Debug)]
pub struct Player<const MAX: usize> {
    pub val: usize,
}

impl<const MAX: usize> View for Player<MAX> {
    type V = (int, int);

    /// The canonical pair that the code stands for.
    open spec fn view(&self) -> (int, int) {
        decode_pair(MAX as int, self.val as int)
    }
}

/// The opening position: one finger on each hand.
impl<const MAX: usize> Default for Player<MAX> {
    fn default() -> (r: Self)
        ensures
            MAX >= 1 ==> r.wf() && r@ == normalize(MAX as int, 1, 1),
            MAX >= 1 ==> r.val == encode_pair(MAX as int, (1, 1)),
            MAX >= 2 ==> r@ == (1int, 1int),
    {
        proof {
            if MAX >= 2 {
                crate::triangle::lemma_decode_code(MAX as int, 1, 1);
                lemma_pair_code_bound(MAX as int, 1, 1);
                crate::triangle::lemma_normalize_canonical_id(MAX as int, 1, 1);
                assert(row_start(MAX as int, 0) == 0);
                assert(row_start(MAX as int, 1) == MAX);
            } else if MAX == 1 {
                crate::triangle::lemma_decode_code(1, 0, 0);
                assert(row_start(1, 0) == 0);
                assert(pair_count(1) == 1);
            }
        }
        if MAX >= 2 {
            Player { val: MAX }
        } else {
            Player { val: 0 }
        }
    }
}

impl<const MAX: usize> PlayerD<MAX> {
    /// Both counts below `MAX`.
    pub open spec fn in_range(self) -> bool {
        self.left < MAX && self.right < MAX
    }

    /// Strikes `other_hand` of `other_player` with `attacking_hand`; `None`
    /// when the struck hand is empty. The counts are not reduced here.
    pub fn attack(self, attacking_hand: Hand, other_player: PlayerD<MAX>, other_hand: Hand) -> (r:
        Option<PlayerD<MAX>>)
        requires
            Player::<MAX>::params_ok(),
            self.in_range(),
            other_player.in_range(),
        ensures
            r.is_some() == attack_pair(self@, attacking_hand, other_player@, other_hand).is_some(),
            r.is_some() ==> r.unwrap()@ == attack_pair(
                self@,
                attacking_hand,
                other_player@,
                other_hand,
            ).unwrap(),
    {
        proof {
            Player::<MAX>::lemma_double_max_fits();
        }
        let mut other_player = other_player;
        let amount = match attacking_hand {
            Hand::LEFT => self.left,
            Hand::RIGHT => self.right,
        };
        match other_hand {
            Hand::LEFT => {
                if other_player.left == 0 {
                    return None;
                }
                other_player.left = other_player.left + amount;
            },
            Hand::RIGHT => {
                if other_player.right == 0 {
                    return None;
                }
                other_player.right = other_player.right + amount;
            },
        }
        Some(other_player)
    }

    /// Moves `amount` fingers from `hand` to the other hand; `None` when
    /// `hand` holds fewer or both hands would end up equal.
    pub fn split(self, hand: Hand, amount: usize) -> (r: Option<PlayerD<MAX>>)
        requires
            Player::<MAX>::params_ok(),
            self.in_range(),
        ensures
            r.is_some() == split_pair(self@, hand, amount as int).is_some(),
            r.is_some() ==> r.unwrap()@ == split_pair(self@, hand, amount as int).unwrap(),
    {
        proof {
            Player::<MAX>::lemma_double_max_fits();
        }
        let mut player = self;
        match hand {
            Hand::LEFT => {
                if amount > player.left {
                    return None;
                }
                player.left = player.left - amount;
                player.right = player.right + amount;
            },
            Hand::RIGHT => {
                if amount > player.right {
                    return None;
                }
                player.left = player.left + amount;
                player.right = player.right - amount;
            },
        }
        if player.left == player.right {
            return None;
        }
        Some(player)
    }
}

impl<const MAX: usize> Player<MAX> {
    /// `MAX` is positive and every code fits in a `usize`.
    pub open spec fn params_ok() -> bool {
        1 <= MAX && pair_count(MAX as int) <= usize::MAX
    }

    /// The code numbers some canonical pair.
    pub open spec fn wf(self) -> bool {
        self.val < pair_count(MAX as int)
    }

    proof fn lemma_double_max_fits()
        requires
            Self::params_ok(),
        ensures
            2 * MAX + 1 <= usize::MAX,
    {
        let m = MAX as int;
        if m >= 4 {
            assert(m * (m + 1) >= 4 * m + 4) by (nonlinear_arith)
                requires
                    m >= 4,
            ;
        }
    }

    /// Number of codes, `MAX * (MAX + 1) / 2`.
    pub fn max_player_val() -> (r: usize)
        requires
            Self::params_ok(),
        ensures
            r == pair_count(MAX as int),
    {
        let m = MAX;
        if m % 2 == 0 {
            proof {
                assert((m / 2) * (m + 1) == m * (m + 1) / 2) by (nonlinear_arith)
                    requires
                        m % 2 == 0,
                ;
            }
            (m / 2) * (m + 1)
        } else {
            proof {
                assert(m * (m / 2 + 1) == m * (m + 1) / 2) by (nonlinear_arith)
                    requires
                        m % 2 == 1,
                ;
            }
            m * (m / 2 + 1)
        }
    }

    /// Decodes the code into its canonical pair.
    pub fn deconstruct(self) -> (r: PlayerD<MAX>)
        requires
            Self::params_ok(),
            self.wf(),
        ensures
            r@ == self@,
            r.in_range(),
            canonical(MAX as int, r.left as int, r.right as int),
            pair_code(MAX as int, r.left as int, r.right as int) == self.val,
    {
        proof {
            lemma_decode_pair(MAX as int, self.val as int);
            lemma_row_start_total(MAX as int);
        }
        let mut left: usize = 0;
        let mut rest: usize = self.val;
        while left + 1 < MAX
            invariant
                Self::params_ok(),
                self.wf(),
                left < MAX,
                row_start(MAX as int, left as int) + rest == self.val,
                crate::triangle::decode_from(MAX as int, left as int, rest as int) == self@,
            decreases MAX - left,
        {
            if rest < MAX - left {
                return PlayerD { left, right: left + rest };
            }
            rest = rest - (MAX - left);
            left = left + 1;
        }
        proof {
            assert(row_start(MAX as int, MAX as int) == row_start(MAX as int, MAX - 1) + 1);
        }
        PlayerD { left: MAX - 1, right: MAX - 1 }
    }

    /// Normalizes the counts and numbers the pair.
    pub fn construct(player: PlayerD<MAX>) -> (r: Player<MAX>)
        requires
            Self::params_ok(),
        ensures
            r.wf(),
            r.val == encode_pair(MAX as int, player@),
            r@ == normalize(MAX as int, player@.0, player@.1),
    {
        let mut left = player.left % MAX;
        let mut right = player.right % MAX;
        if right < left {
            let tmp = left;
            left = right;
            right = tmp;
        }
        proof {
            Self::lemma_double_max_fits();
            lemma_normalize_canonical(MAX as int, player@.0, player@.1);
            lemma_pair_code_bound(MAX as int, left as int, right as int);
            lemma_row_start_closed(MAX as int, left as int);
            lemma_row_start_mono(MAX as int, left as int, MAX as int);
            lemma_row_start_total(MAX as int);
            crate::triangle::lemma_decode_code(MAX as int, left as int, right as int);
        }
        let width = 2 * MAX - left + 1;
        let start = if left % 2 == 0 {
            proof {
                let (l, w, s) = (left as int, width as int, row_start(MAX as int, left as int));
                assert((l / 2) * w == s) by (nonlinear_arith)
                    requires
                        l % 2 == 0,
                        2 * s == l * w,
                ;
            }
            (left / 2) * width
        } else {
            proof {
                let (l, w, s) = (left as int, width as int, row_start(MAX as int, left as int));
                assert(w % 2 == 0);
                assert(l * (w / 2) == s) by (nonlinear_arith)
                    requires
                        w % 2 == 0,
                        2 * s == l * w,
                ;
            }
            left * (width / 2)
        };
        Player { val: start + (right - left) }
    }

    /// Strikes `other_hand` of `other_player` with `attacking_hand` and returns
    /// the struck player's new code; `None` when the struck hand is empty.
    pub fn attack(self, attacking_hand: Hand, other_player: Player<MAX>, other_hand: Hand) -> (r:
        Option<Player<MAX>>)
        requires
            Self::params_ok(),
            self.wf(),
            other_player.wf(),
        ensures
            r.is_some() == attack_pair(self@, attacking_hand, other_player@, other_hand).is_some(),
            r.is_some() ==> r.unwrap().wf() && r.unwrap().val == encode_pair(
                MAX as int,
                attack_pair(self@, attacking_hand, other_player@, other_hand).unwrap(),
            ),
    {
        let player_deconst = self.deconstruct();
        let other_player_deconst = other_player.deconstruct();
        match player_deconst.attack(attacking_hand, other_player_deconst, other_hand) {
            Some(p) => Some(Self::construct(p)),
            None => None,
        }
    }

    /// Moves `amount` fingers from `hand` to the other hand and returns the
    /// player's new code; `None` when the split is refused.
    pub fn split(self, hand: Hand, amount: usize) -> (r: Option<Player<MAX>>)
        requires
            Self::params_ok(),
            self.wf(),
        ensures
            r.is_some() == split_pair(self@, hand, amount as int).is_some(),
            r.is_some() ==> r.unwrap().wf() && r.unwrap().val == encode_pair(
                MAX as int,
                split_pair(self@, hand, amount as int).unwrap(),
            ),
    {
        let player_deconst = self.deconstruct();
        match player_deconst.split(hand, amount) {
            Some(p) => Some(Self::construct(p)),
            None => None,
        }
    }
}

} // verus!
