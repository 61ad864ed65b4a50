//! What a place in a ranked list is worth.
//!
//! A rank is worth `weight / (K + rank)`. Scores are kept as exact fractions, so
//! that two hits tie only where they are in fact worth the same.

use crate::search::CANDIDATE_DEPTH;
use vstd::prelude::*;

verus! {

/// The smoothing constant, which keeps a single list's top hit from dominating
/// the fusion.
pub const RRF_K: u64 = 60;

/// The weights below are in units of one twentieth.
pub const WEIGHT_UNIT: u64 = 20;

pub const W_KEYWORD: u64 = 20;

pub const W_SEMANTIC: u64 = 20;

/// Recency enters as a third ranked list rather than as a factor, so that it can
/// nudge the order without swamping relevance: its weight is 0.35.
pub const W_RECENCY: u64 = 7;

/// The fraction `num / den`.
#[derive(Debug, Clone, Copy, PartialEq, Eq)]
pub struct Score {
    pub num: u64,
    pub den: u64,
}

impl View for Score {
    type V = (nat, nat);

    open spec fn view(&self) -> (nat, nat) {
        (self.num as nat, self.den as nat)
    }
}

/// Is the first fraction the greater one?
pub open spec fn more(a: (nat, nat), b: (nat, nat)) -> bool {
    a.0 * b.1 > b.0 * a.1
}

/// Are two fractions of one value?
pub open spec fn level(a: (nat, nat), b: (nat, nat)) -> bool {
    a.0 * b.1 == b.0 * a.1
}

/// What a rank is divided by; a list that lacks the conversation drops out.
pub open spec fn share(rank: nat) -> nat {
    if rank == 0 {
        1
    } else {
        RRF_K as nat + rank
    }
}

/// What a rank counts for before the division.
pub open spec fn stake(weight: u64, rank: nat) -> nat {
    if rank == 0 {
        0
    } else {
        weight as nat
    }
}

/// What a conversation at these ranks is worth, as a fraction: the sum of
/// `weight / (K + rank)` over the lists that have it. A rank of 0 stands for a
/// list that does not.
pub open spec fn worth(keyword: nat, semantic: nat, recency: nat) -> (nat, nat) {
    let (k, s, r) = (share(keyword), share(semantic), share(recency));
    (
        stake(W_KEYWORD, keyword) * (s * r) + stake(W_SEMANTIC, semantic) * (k * r) + stake(
            W_RECENCY,
            recency,
        ) * (k * s),
        WEIGHT_UNIT as nat * (k * s * r),
    )
}

/// The score of a conversation at these ranks.
pub fn worth_of(keyword: usize, semantic: usize, recency: usize) -> (w: Score)
    requires
        keyword <= CANDIDATE_DEPTH,
        semantic <= CANDIDATE_DEPTH,
        recency <= 2 * CANDIDATE_DEPTH,
    ensures
        w@ == worth(keyword as nat, semantic as nat, recency as nat),
        w.den > 0,
{
    let k: u64 = if keyword == 0 {
        1
    } else {
        RRF_K + keyword as u64
    };
    let s: u64 = if semantic == 0 {
        1
    } else {
        RRF_K + semantic as u64
    };
    let r: u64 = if recency == 0 {
        1
    } else {
        RRF_K + recency as u64
    };
    let wk: u64 = if keyword == 0 {
        0
    } else {
        W_KEYWORD
    };
    let ws: u64 = if semantic == 0 {
        0
    } else {
        W_SEMANTIC
    };
    let wr: u64 = if recency == 0 {
        0
    } else {
        W_RECENCY
    };
    proof {
        assert(0 < s * r <= 260 * 460) by (nonlinear_arith)
            requires
                0 < s <= 260,
                0 < r <= 460,
        ;
        assert(0 < k * r <= 260 * 460) by (nonlinear_arith)
            requires
                0 < k <= 260,
                0 < r <= 460,
        ;
        assert(0 < k * s <= 260 * 260) by (nonlinear_arith)
            requires
                0 < k <= 260,
                0 < s <= 260,
        ;
        let ks: int = k * s;
        assert(0 < ks * r <= 260 * 260 * 460) by (nonlinear_arith)
            requires
                0 < ks <= 260 * 260,
                0 < r <= 460,
        ;
        let sr: int = s * r;
        let kr: int = k * r;
        assert(0 <= wk * sr <= 20 * 260 * 460) by (nonlinear_arith)
            requires
                0 <= wk <= 20,
                0 < sr <= 260 * 460,
        ;
        assert(0 <= ws * kr <= 20 * 260 * 460) by (nonlinear_arith)
            requires
                0 <= ws <= 20,
                0 < kr <= 260 * 460,
        ;
        assert(0 <= wr * ks <= 20 * 260 * 460) by (nonlinear_arith)
            requires
                0 <= wr <= 20,
                0 < ks <= 260 * 260,
        ;
    }
    Score { num: wk * (s * r) + ws * (k * r) + wr * (k * s), den: WEIGHT_UNIT * (k * s * r) }
}

impl Score {
    /// Tests whether this is the greater fraction.
    pub fn is_more(&self, other: &Score) -> (b: bool)
        ensures
            b == more(self@, other@),
    {
        proof {
            lemma_product(self.num, other.den);
            lemma_product(other.num, self.den);
        }
        self.num as u128 * other.den as u128 > other.num as u128 * self.den as u128
    }

    /// Tests whether two fractions are of one value.
    pub fn is_level(&self, other: &Score) -> (b: bool)
        ensures
            b == level(self@, other@),
    {
        proof {
            lemma_product(self.num, other.den);
            lemma_product(other.num, self.den);
        }
        self.num as u128 * other.den as u128 == other.num as u128 * self.den as u128
    }
}

proof fn lemma_product(a: u64, b: u64)
    ensures
        0 <= a * b <= u128::MAX,
{
    assert(0 <= a * b <= u64::MAX * u64::MAX) by (nonlinear_arith)
        requires
            0 <= a <= u64::MAX,
            0 <= b <= u64::MAX,
    ;
    assert(u64::MAX * u64::MAX <= u128::MAX) by (nonlinear_arith);
}

/// The order of fractions is a total one.
pub proof fn lemma_more_total(a: (nat, nat), b: (nat, nat), c: (nat, nat))
    requires
        a.1 > 0,
        b.1 > 0,
        c.1 > 0,
    ensures
        more(a, b) && more(b, c) ==> more(a, c),
        more(a, b) && level(b, c) ==> more(a, c),
        level(a, b) && more(b, c) ==> more(a, c),
        level(a, b) && level(b, c) ==> level(a, c),
        more(a, b) || level(a, b) || more(b, a),
{
    let (an, ad) = (a.0 as int, a.1 as int);
    let (bn, bd) = (b.0 as int, b.1 as int);
    let (cn, cd) = (c.0 as int, c.1 as int);
    assert(an * bd > bn * ad && bn * cd >= cn * bd ==> an * cd > cn * ad) by (nonlinear_arith)
        requires
            an >= 0,
            bn >= 0,
            cn >= 0,
            ad > 0,
            bd > 0,
            cd > 0,
    {
        if an * bd > bn * ad && bn * cd >= cn * bd {
            assert((an * bd) * cd > (bn * ad) * cd);
            assert((bn * cd) * ad >= (cn * bd) * ad);
            assert((an * cd) * bd > (cn * ad) * bd);
        }
    }
    assert(an * bd == bn * ad && bn * cd > cn * bd ==> an * cd > cn * ad) by (nonlinear_arith)
        requires
            an >= 0,
            bn >= 0,
            cn >= 0,
            ad > 0,
            bd > 0,
            cd > 0,
    {
        if an * bd == bn * ad && bn * cd > cn * bd {
            assert((an * bd) * cd == (bn * ad) * cd);
            assert((bn * cd) * ad > (cn * bd) * ad);
            assert((an * cd) * bd > (cn * ad) * bd);
        }
    }
    assert(an * bd == bn * ad && bn * cd == cn * bd ==> an * cd == cn * ad) by (nonlinear_arith)
        requires
            ad > 0,
            bd > 0,
            cd > 0,
    {
        if an * bd == bn * ad && bn * cd == cn * bd {
            assert((an * bd) * cd == (bn * ad) * cd);
            assert((bn * cd) * ad == (cn * bd) * ad);
            assert((an * cd) * bd == (cn * ad) * bd);
        }
    }
}

/// Does a rank beat another? A better place does, and so does any place over
/// none.
pub open spec fn better(a: nat, b: nat) -> bool {
    a != 0 && (b == 0 || a < b)
}

/// A better rank in one list, all else equal, is worth more, whichever list it
/// is. So recency decides between hits that the two arms rank alike.
pub proof fn law_better_rank_is_worth_more(a: nat, b: nat, x: nat, y: nat)
    requires
        better(a, b),
    ensures
        more(worth(a, x, y), worth(b, x, y)),
        more(worth(x, a, y), worth(x, b, y)),
        more(worth(x, y, a), worth(x, y, b)),
{
    let (sa, sb, sx, sy) = (share(a) as int, share(b) as int, share(x) as int, share(y) as int);
    lemma_better(a, b, W_KEYWORD);
    lemma_better(a, b, W_RECENCY);
    lemma_worth_grows(
        stake(W_KEYWORD, a) as int,
        sa,
        stake(W_KEYWORD, b) as int,
        sb,
        stake(W_SEMANTIC, x) as int,
        sx,
        stake(W_RECENCY, y) as int,
        sy,
    );
    lemma_worth_grows(
        stake(W_SEMANTIC, a) as int,
        sa,
        stake(W_SEMANTIC, b) as int,
        sb,
        stake(W_KEYWORD, x) as int,
        sx,
        stake(W_RECENCY, y) as int,
        sy,
    );
    lemma_worth_grows(
        stake(W_RECENCY, a) as int,
        sa,
        stake(W_RECENCY, b) as int,
        sb,
        stake(W_KEYWORD, x) as int,
        sx,
        stake(W_SEMANTIC, y) as int,
        sy,
    );
    assert(sx * sa * sy == sa * sx * sy && sx * sb * sy == sb * sx * sy) by (nonlinear_arith);
    assert(sx * sy * sa == sa * sx * sy && sx * sy * sb == sb * sx * sy) by (nonlinear_arith);
    assert(sa * sx == sx * sa && sb * sx == sx * sb && sa * sy == sy * sa && sb * sy == sy * sb)
        by (nonlinear_arith);
}

proof fn lemma_better(a: nat, b: nat, weight: u64)
    requires
        better(a, b),
        weight > 0,
    ensures
        stake(weight, a) * share(b) > stake(weight, b) * share(a),
{
    if b != 0 {
        let (w, sa, sb) = (weight as int, share(a) as int, share(b) as int);
        assert(w * sb > w * sa) by (nonlinear_arith)
            requires
                w > 0,
                sb > sa,
        ;
    } else {
        assert(stake(weight, b) * share(a) == 0) by (nonlinear_arith)
            requires
                stake(weight, b) == 0,
        ;
    }
}

/// `p / a + u / x + v / y` against `q / b + u / x + v / y`, brought to one
/// denominator.
proof fn lemma_worth_grows(p: int, a: int, q: int, b: int, u: int, x: int, v: int, y: int)
    requires
        a > 0,
        b > 0,
        x > 0,
        y > 0,
        p * b > q * a,
    ensures
        (p * (x * y) + u * (a * y) + v * (a * x)) * (20 * (b * x * y)) > (q * (x * y) + u * (b * y)
            + v * (b * x)) * (20 * (a * x * y)),
{
    let xy = x * y;
    assert(xy > 0) by (nonlinear_arith)
        requires
            x > 0,
            y > 0,
            xy == x * y,
    ;
    let l = p * (x * y) + u * (a * y) + v * (a * x);
    let r = q * (x * y) + u * (b * y) + v * (b * x);
    let (l1, l2, l3) = (p * (x * y), u * (a * y), v * (a * x));
    let (r1, r2, r3) = (q * (x * y), u * (b * y), v * (b * x));
    assert((l1 + l2 + l3) * b == l1 * b + l2 * b + l3 * b) by (nonlinear_arith);
    assert((r1 + r2 + r3) * a == r1 * a + r2 * a + r3 * a) by (nonlinear_arith);
    assert((p * (x * y)) * b == (p * b) * (x * y)) by (nonlinear_arith);
    assert((q * (x * y)) * a == (q * a) * (x * y)) by (nonlinear_arith);
    assert((u * (a * y)) * b == (u * (b * y)) * a) by (nonlinear_arith);
    assert((v * (a * x)) * b == (v * (b * x)) * a) by (nonlinear_arith);
    let (pb, qa) = (p * b, q * a);
    assert((pb - qa) * xy == pb * xy - qa * xy) by (nonlinear_arith);
    assert(l * b - r * a == (p * b - q * a) * xy);
    assert((p * b - q * a) * xy > 0) by (nonlinear_arith)
        requires
            p * b > q * a,
            xy > 0,
    ;
    assert(l * (20 * (b * x * y)) == 20 * ((l * b) * xy)) by (nonlinear_arith)
        requires
            xy == x * y,
    ;
    assert(r * (20 * (a * x * y)) == 20 * ((r * a) * xy)) by (nonlinear_arith)
        requires
            xy == x * y,
    ;
    let (lb, ra) = (l * b, r * a);
    assert(lb * xy > ra * xy) by (nonlinear_arith)
        requires
            lb > ra,
            xy > 0,
    ;
}

} // verus!
