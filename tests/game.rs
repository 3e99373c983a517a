use chopsticks::player::{Hand, Player, PlayerD};
use chopsticks::state::{Action, State, StateD};

fn pair<const MAX: usize>(left: usize, right: usize) -> Player<MAX> {
    Player::<MAX>::construct(PlayerD { left, right })
}

fn hands<const MAX: usize>(p: Player<MAX>) -> (usize, usize) {
    let d = p.deconstruct();
    (d.left, d.right)
}

fn state_of<const COUNT: usize, const MAX: usize>(
    players: [(usize, usize); COUNT],
    turn: usize,
) -> State<COUNT, MAX> {
    let mut d = StateD::<COUNT, MAX>::default();
    for i in 0..COUNT {
        d.players[i] = pair::<MAX>(players[i].0, players[i].1);
    }
    d.turn = turn;
    State::<COUNT, MAX>::construct(d)
}

#[test]
fn player_codes_round_trip() {
    for val in 0..Player::<5>::max_player_val() {
        let p = Player::<5> { val };
        let d = p.deconstruct();
        assert_eq!(Player::<5>::construct(d).val, val);
    }
    for val in 0..Player::<1>::max_player_val() {
        let d = Player::<1> { val }.deconstruct();
        assert_eq!(Player::<1>::construct(d).val, val);
    }
}

#[test]
fn state_codes_round_trip() {
    for val in 0..State::<3, 5>::max_state_val() {
        let s = State::<3, 5> { val };
        assert_eq!(State::<3, 5>::construct(s.deconstruct()).val, val);
    }
}

#[test]
fn decoded_pairs_are_canonical() {
    for val in 0..Player::<5>::max_player_val() {
        let (l, r) = hands(Player::<5> { val });
        assert!(l <= r && r < 5);
    }
    for val in 0..State::<2, 4>::max_state_val() {
        let d = State::<2, 4> { val }.deconstruct();
        assert!(d.turn < 2);
        for p in d.players.iter() {
            let (l, r) = hands(*p);
            assert!(l <= r && r < 4);
        }
    }
}

#[test]
fn triangular_order() {
    let expected = [
        (0, 0), (0, 1), (0, 2), (0, 3), (0, 4),
        (1, 1), (1, 2), (1, 3), (1, 4),
        (2, 2), (2, 3), (2, 4),
        (3, 3), (3, 4),
        (4, 4),
    ];
    for (val, e) in expected.iter().enumerate() {
        assert_eq!(hands(Player::<5> { val }), *e);
        assert_eq!(pair::<5>(e.0, e.1).val, val);
    }
}

#[test]
fn default_state_max_five() {
    assert_eq!(Player::<5>::max_player_val(), 15);
    let p = Player::<5>::default();
    assert_eq!(hands(p), (1, 1));
    assert_eq!(p.val, 5);
    assert_eq!(hands(Player::<5> { val: 6 }), (1, 2));
    let s = State::<3, 5>::default();
    assert_eq!(s.val, 5 * 225 + 5 * 15 + 5);
    let d = s.deconstruct();
    assert_eq!(d.turn, 0);
    for p in d.players.iter() {
        assert_eq!(hands(*p), (1, 1));
    }
}

#[test]
fn split_to_zero_and_two() {
    let p = pair::<5>(1, 1);
    let r = p.split(Hand::LEFT, 1).unwrap();
    assert_eq!(hands(r), (0, 2));
    let r = p.split(Hand::RIGHT, 1).unwrap();
    assert_eq!(hands(r), (0, 2));
    let raw = PlayerD::<5> { left: 1, right: 1 }.split(Hand::LEFT, 1).unwrap();
    assert_eq!((raw.left, raw.right), (0, 2));
}

#[test]
fn split_into_equal_hands_is_refused() {
    let p = pair::<5>(2, 2);
    assert!(p.split(Hand::LEFT, 0).is_none());
    assert!(p.split(Hand::RIGHT, 0).is_none());
    assert!(pair::<5>(1, 3).split(Hand::RIGHT, 1).is_none());
    let s = state_of::<2, 5>([(2, 2), (1, 1)], 0);
    let t = s.action(Action::SPLIT(Hand::LEFT, 0));
    assert_eq!(t.val, s.val);
    assert_eq!(t.deconstruct().turn, 0);
}

#[test]
fn split_more_than_held_is_refused() {
    assert!(pair::<5>(1, 3).split(Hand::LEFT, 2).is_none());
    assert!(pair::<5>(1, 3).split(Hand::RIGHT, 4).is_none());
    assert!(pair::<5>(0, 3).split(Hand::LEFT, 1).is_none());
    assert!(PlayerD::<5> { left: 1, right: 3 }.split(Hand::LEFT, usize::MAX).is_none());
}

#[test]
fn split_wraps_and_keeps_no_op() {
    assert_eq!(hands(pair::<5>(1, 4).split(Hand::LEFT, 1).unwrap()), (0, 0));
    assert_eq!(hands(pair::<5>(1, 3).split(Hand::LEFT, 0).unwrap()), (1, 3));
    assert_eq!(hands(pair::<5>(1, 3).split(Hand::RIGHT, 3).unwrap()), (0, 4));
}

#[test]
fn attack_on_dead_hand_is_refused() {
    let defender = pair::<5>(0, 3);
    for val in 0..Player::<5>::max_player_val() {
        let attacker = Player::<5> { val };
        assert!(attacker.attack(Hand::LEFT, defender, Hand::LEFT).is_none());
        assert!(attacker.attack(Hand::RIGHT, defender, Hand::LEFT).is_none());
    }
    let raw = PlayerD::<5> { left: 2, right: 2 }.attack(Hand::LEFT, PlayerD { left: 0, right: 3 }, Hand::LEFT);
    assert!(raw.is_none());
}

#[test]
fn attack_adds_and_wraps() {
    let attacker = pair::<5>(1, 4);
    let defender = pair::<5>(2, 3);
    assert_eq!(hands(attacker.attack(Hand::LEFT, defender, Hand::LEFT).unwrap()), (3, 3));
    assert_eq!(hands(attacker.attack(Hand::RIGHT, defender, Hand::LEFT).unwrap()), (1, 3));
    assert_eq!(hands(attacker.attack(Hand::RIGHT, defender, Hand::RIGHT).unwrap()), (2, 2));
    assert_eq!(hands(attacker.attack(Hand::LEFT, defender, Hand::RIGHT).unwrap()), (2, 4));
    let d = pair::<5>(0, 3);
    assert_eq!(hands(attacker.attack(Hand::RIGHT, d, Hand::RIGHT).unwrap()), (0, 2));
    let raw = PlayerD::<5> { left: 1, right: 4 }
        .attack(Hand::RIGHT, PlayerD { left: 2, right: 3 }, Hand::RIGHT)
        .unwrap();
    assert_eq!((raw.left, raw.right), (2, 7));
}

#[test]
fn opening_moves() {
    let s = State::<3, 5>::default();
    let s = s.action(Action::ATTACK(Hand::LEFT, 2, Hand::LEFT));
    assert_eq!(s.val, 5 * 225 + 5 * 15 + 6 + 3375);
    let s = s.action(Action::SPLIT(Hand::RIGHT, 1));
    assert_eq!(s.val, 5 * 225 + 2 * 15 + 6 + 2 * 3375);
    let d = s.deconstruct();
    assert_eq!(d.turn, 2);
    assert_eq!(hands(d.players[0]), (1, 1));
    assert_eq!(hands(d.players[1]), (0, 2));
    assert_eq!(hands(d.players[2]), (1, 2));
}

#[test]
fn attack_targets_are_checked() {
    let s = State::<3, 5>::default();
    assert_eq!(s.action(Action::ATTACK(Hand::LEFT, 0, Hand::LEFT)).val, s.val);
    assert_eq!(s.action(Action::ATTACK(Hand::LEFT, 3, Hand::LEFT)).val, s.val);
    assert_eq!(s.action(Action::ATTACK(Hand::LEFT, usize::MAX, Hand::RIGHT)).val, s.val);
    let d = StateD::<3, 5>::default();
    let e = d.action(Action::ATTACK(Hand::RIGHT, 1, Hand::RIGHT));
    assert_eq!(e.turn, 1);
    assert_eq!(hands(e.players[1]), (1, 2));
    assert_eq!(e.players[0].val, d.players[0].val);
    assert_eq!(e.players[2].val, d.players[2].val);
}

#[test]
fn turn_rotation_three_players() {
    let actions = [
        Action::ATTACK(Hand::LEFT, 0, Hand::LEFT),
        Action::ATTACK(Hand::RIGHT, 1, Hand::RIGHT),
        Action::ATTACK(Hand::LEFT, 2, Hand::RIGHT),
        Action::SPLIT(Hand::LEFT, 0),
        Action::SPLIT(Hand::RIGHT, 1),
        Action::SPLIT(Hand::RIGHT, 2),
    ];
    let mut moved = 0;
    let mut refused = 0;
    let max = State::<3, 4>::max_state_val();
    for val in (0..max).step_by(7) {
        let s = State::<3, 4> { val };
        let turn = s.deconstruct().turn;
        for a in actions.iter() {
            let t = s.action(*a);
            if t.val == s.val {
                refused += 1;
                assert_eq!(t.deconstruct().turn, turn);
            } else {
                moved += 1;
                assert_eq!(t.deconstruct().turn, (turn + 1) % 3);
            }
        }
    }
    assert!(moved > 0 && refused > 0);
}

#[test]
fn bounds_match_enumeration() {
    let mut pairs = 0;
    for l in 0..3 {
        for r in l..3 {
            assert!(pair::<3>(l, r).val < 6);
            pairs += 1;
        }
    }
    assert_eq!(pairs, 6);
    assert_eq!(Player::<3>::max_player_val(), 6);
    assert_eq!(Player::<1>::max_player_val(), 1);
    assert_eq!(Player::<4>::max_player_val(), 10);
    assert_eq!(State::<2, 3>::max_state_val(), 6 * 6 * 2);
    assert_eq!(State::<3, 5>::max_state_val(), 15 * 15 * 15 * 3);
    assert_eq!(State::<1, 1>::max_state_val(), 1);
    let mut seen = vec![false; State::<2, 3>::max_state_val()];
    for a in 0..6 {
        for b in 0..6 {
            for turn in 0..2 {
                let mut d = StateD::<2, 3>::default();
                d.players[0] = Player { val: a };
                d.players[1] = Player { val: b };
                d.turn = turn;
                let v = State::<2, 3>::construct(d).val;
                assert!(!seen[v]);
                seen[v] = true;
            }
        }
    }
    assert!(seen.iter().all(|x| *x));
}

#[test]
fn encode_normalizes_counts() {
    assert_eq!(pair::<5>(3, 1).val, pair::<5>(1, 3).val);
    assert_eq!(pair::<5>(6, 8).val, pair::<5>(1, 3).val);
    assert_eq!(pair::<5>(5, 5).val, 0);
    assert_eq!(pair::<5>(9, 0).val, pair::<5>(0, 4).val);
}
