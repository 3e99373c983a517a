use vstd::prelude::*;
use vstd::relations::injective_on;
use vstd::set_lib::{lemma_int_range, lemma_map_size, set_int_range};

verus! {

/// Index of the first code whose pair has smaller count `left`: the sizes
/// `max - j` of the rows `j < left`, added up.
pub open spec fn row_start(max: int, left: int) -> int
    decreases left,
{
    if left <= 0 {
        0
    } else {
        row_start(max, left - 1) + (max - (left - 1))
    }
}

/// Number of canonical pairs with counts below `max`.
pub open spec fn pair_count(max: int) -> int {
    max * (max + 1) / 2
}

/// A pair stored with its smaller count first, both counts below `max`.
pub open spec fn canonical(max: int, left: int, right: int) -> bool {
    0 <= left <= right < max
}

/// Dense triangular index of a canonical pair.
pub open spec fn pair_code(max: int, left: int, right: int) -> int {
    row_start(max, left) + (right - left)
}

/// Scans the rows from `left` on, with `rest` codes still to skip.
pub open spec fn decode_from(max: int, left: int, rest: int) -> (int, int)
    decreases max - left,
{
    if left >= max - 1 || rest < max - left {
        (left, left + rest)
    } else {
        decode_from(max, left + 1, rest - (max - left))
    }
}

/// The pair that the triangular enumeration numbers `code`.
pub open spec fn decode_pair(max: int, code: int) -> (int, int) {
    decode_from(max, 0, code)
}

/// Both counts reduced modulo `max`, the smaller one first.
pub open spec fn normalize(max: int, left: int, right: int) -> (int, int) {
    let a = left % max;
    let b = right % max;
    if b < a {
        (b, a)
    } else {
        (a, b)
    }
}

/// Code of an arbitrary pair of counts: normalized, then numbered.
pub open spec fn encode_pair(max: int, p: (int, int)) -> int {
    let n = normalize(max, p.0, p.1);
    pair_code(max, n.0, n.1)
}

pub proof fn lemma_row_start_closed(max: int, left: int)
    requires
        0 <= left,
    ensures
        2 * row_start(max, left) == left * (2 * max - left + 1),
    decreases left,
{
    if left > 0 {
        lemma_row_start_closed(max, left - 1);
        assert(2 * row_start(max, left) == left * (2 * max - left + 1)) by (nonlinear_arith)
            requires
                2 * row_start(max, left - 1) == (left - 1) * (2 * max - (left - 1) + 1),
                row_start(max, left) == row_start(max, left - 1) + (max - (left - 1)),
        ;
    } else {
        assert(left * (2 * max - left + 1) == 0) by (nonlinear_arith)
            requires
                left == 0,
        ;
    }
}

pub proof fn lemma_row_start_total(max: int)
    requires
        0 <= max,
    ensures
        row_start(max, max) == pair_count(max),
{
    lemma_row_start_closed(max, max);
    assert(max * (2 * max - max + 1) == max * (max + 1)) by (nonlinear_arith);
}

/// Rows within `[0, max]` only add codes.
pub proof fn lemma_row_start_mono(max: int, a: int, b: int)
    requires
        0 <= a <= b <= max,
    ensures
        row_start(max, a) + (b - a) <= row_start(max, b),
    decreases b - a,
{
    if a < b {
        lemma_row_start_mono(max, a, b - 1);
    }
}

/// Decoding from row `left` lands on a canonical pair at the expected code.
pub proof fn lemma_decode_from(max: int, left: int, rest: int)
    requires
        0 <= left < max,
        0 <= rest,
        row_start(max, left) + rest < pair_count(max),
    ensures
        canonical(max, decode_from(max, left, rest).0, decode_from(max, left, rest).1),
        pair_code(max, decode_from(max, left, rest).0, decode_from(max, left, rest).1)
            == row_start(max, left) + rest,
    decreases max - left,
{
    lemma_row_start_total(max);
    if left >= max - 1 {
        assert(row_start(max, max) == row_start(max, max - 1) + 1);
    } else if rest < max - left {
    } else {
        lemma_decode_from(max, left + 1, rest - (max - left));
    }
}

/// Every code below `pair_count` decodes to a canonical pair numbered by it.
pub proof fn lemma_decode_pair(max: int, code: int)
    requires
        0 < max,
        0 <= code < pair_count(max),
    ensures
        canonical(max, decode_pair(max, code).0, decode_pair(max, code).1),
        pair_code(max, decode_pair(max, code).0, decode_pair(max, code).1) == code,
{
    lemma_decode_from(max, 0, code);
}

/// A canonical pair has a code below `pair_count`.
pub proof fn lemma_pair_code_bound(max: int, left: int, right: int)
    requires
        canonical(max, left, right),
    ensures
        0 <= pair_code(max, left, right) < pair_count(max),
{
    lemma_row_start_mono(max, 0, left);
    lemma_row_start_mono(max, left + 1, max);
    lemma_row_start_total(max);
}

/// Decoding, started at any row up to the pair's own, finds the pair again.
proof fn lemma_decode_code_from(max: int, k: int, left: int, right: int)
    requires
        canonical(max, left, right),
        0 <= k <= left,
    ensures
        decode_from(max, k, pair_code(max, left, right) - row_start(max, k)) == (left, right),
    decreases left - k,
{
    if k < left {
        lemma_row_start_mono(max, k + 1, left);
        lemma_decode_code_from(max, k + 1, left, right);
    }
}

/// A canonical pair decodes back from its own code.
pub proof fn lemma_decode_code(max: int, left: int, right: int)
    requires
        canonical(max, left, right),
    ensures
        decode_pair(max, pair_code(max, left, right)) == (left, right),
{
    lemma_decode_code_from(max, 0, left, right);
}

/// Normalizing yields a canonical pair.
pub proof fn lemma_normalize_canonical(max: int, left: int, right: int)
    requires
        0 < max,
    ensures
        canonical(max, normalize(max, left, right).0, normalize(max, left, right).1),
{
}

/// A canonical pair is its own normal form.
pub proof fn lemma_normalize_canonical_id(max: int, left: int, right: int)
    requires
        canonical(max, left, right),
    ensures
        normalize(max, left, right) == (left, right),
{
    vstd::arithmetic::div_mod::lemma_small_mod(left as nat, max as nat);
    vstd::arithmetic::div_mod::lemma_small_mod(right as nat, max as nat);
}

pub proof fn lemma_pair_count_positive(max: int)
    requires
        1 <= max,
    ensures
        1 <= pair_count(max),
{
    assert(max * (max + 1) >= 2) by (nonlinear_arith)
        requires
            max >= 1,
    ;
}

/// Encoding the pair that a code decodes to gives the code back.
pub proof fn lemma_player_round_trip(max: int, code: int)
    requires
        0 < max,
        0 <= code < pair_count(max),
    ensures
        encode_pair(max, decode_pair(max, code)) == code,
{
    lemma_decode_pair(max, code);
    let p = decode_pair(max, code);
    lemma_normalize_canonical_id(max, p.0, p.1);
}

/// Decoding the code of any pair of counts gives its normal form, and the
/// code lies in `[0, pair_count(max))`.
pub proof fn lemma_player_encode_decode(max: int, p: (int, int))
    requires
        0 < max,
    ensures
        0 <= encode_pair(max, p) < pair_count(max),
        decode_pair(max, encode_pair(max, p)) == normalize(max, p.0, p.1),
{
    let n = normalize(max, p.0, p.1);
    lemma_normalize_canonical(max, p.0, p.1);
    lemma_pair_code_bound(max, n.0, n.1);
    lemma_decode_code(max, n.0, n.1);
}

/// The canonical pairs with counts below `max`.
pub open spec fn canonical_pairs(max: int) -> Set<(int, int)> {
    Set::new(|p: (int, int)| canonical(max, p.0, p.1))
}

/// There are exactly `pair_count(max)` canonical pairs, and the codes
/// `[0, pair_count(max))` number them one to one.
pub proof fn lemma_pair_count_enumerates(max: int)
    requires
        1 <= max,
    ensures
        canonical_pairs(max).finite(),
        canonical_pairs(max).len() == pair_count(max),
        set_int_range(0, pair_count(max)).map(|c: int| decode_pair(max, c)) == canonical_pairs(max),
{
    let pc = pair_count(max);
    let codes = set_int_range(0, pc);
    let f = |c: int| decode_pair(max, c);
    lemma_pair_count_positive(max);
    lemma_int_range(0, pc);
    assert(injective_on(f, codes)) by {
        assert forall|c1: int, c2: int|
            codes.contains(c1) && codes.contains(c2) && #[trigger] f(c1) == #[trigger] f(c2)
            implies c1 == c2 by {
            lemma_decode_pair(max, c1);
            lemma_decode_pair(max, c2);
        }
    }
    assert(codes.map(f) =~= canonical_pairs(max)) by {
        assert forall|p: (int, int)| canonical_pairs(max).contains(p) implies codes.map(f).contains(
            p,
        ) by {
            lemma_pair_code_bound(max, p.0, p.1);
            lemma_decode_code(max, p.0, p.1);
            let c = pair_code(max, p.0, p.1);
            assert(codes.contains(c) && f(c) == p);
        }
        assert forall|p: (int, int)| codes.map(f).contains(p) implies canonical_pairs(
            max,
        ).contains(p) by {
            let c = choose|c: int| codes.contains(c) && f(c) == p;
            lemma_decode_pair(max, c);
        }
    }
    lemma_map_size(codes, canonical_pairs(max), f);
}

} // verus!
